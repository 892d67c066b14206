//! In-memory ManageSieve server for hermetic tests of the deployer.

use vstd::prelude::*;

use crate::error::Error;
use crate::managesieve::SieveOps;
use crate::text::{clone_opt, contains_text, has_text, opt_text, texts, to_chars};
use crate::textmap::TextMap;

verus! {

/// The state of the server.
#[verifier::ext_equal]
pub ghost struct ScriptStore {
    pub scripts: Map<Seq<char>, Seq<char>>,
    pub active: Option<Seq<char>>,
    /// The names uploaded so far, in order.
    pub put_log: Seq<Seq<char>>,
}

impl ScriptStore {
    /// What a script holds, if it exists.
    pub open spec fn script(self, name: Seq<char>) -> Option<Seq<char>> {
        if self.scripts.contains_key(name) {
            Some(self.scripts[name])
        } else {
            None
        }
    }

    /// The server's validation: a script that uses `fileinto` must require something.
    pub open spec fn put(self, name: Seq<char>, content: Seq<char>) -> (
        ScriptStore,
        Result<(), Seq<char>>,
    ) {
        if has_text(content, "fileinto"@) && !has_text(content, "require"@) {
            (self, Err("PUTSCRIPT rejected: fileinto used without require"@))
        } else {
            (
                ScriptStore {
                    scripts: self.scripts.insert(name, content),
                    put_log: self.put_log.push(name),
                    ..self
                },
                Ok(()),
            )
        }
    }

    /// A script that exists becomes the active one.
    pub open spec fn activate(self, name: Seq<char>) -> (ScriptStore, Result<(), Seq<char>>) {
        if self.scripts.contains_key(name) {
            (ScriptStore { active: Some(name), ..self }, Ok(()))
        } else {
            (self, Err("SETACTIVE of nonexistent script "@ + name))
        }
    }
}

/// A fake ManageSieve server.
#[derive(Debug, Clone)]
pub struct FakeSieveOps {
    pub scripts: TextMap<String>,
    pub active: Option<String>,
    pub put_log: Vec<String>,
}

/// The texts under each name of a map.
pub open spec fn texts_in(m: Map<Seq<char>, String>) -> Map<Seq<char>, Seq<char>> {
    Map::new(|k: Seq<char>| m.contains_key(k), |k: Seq<char>| m[k]@)
}

impl View for FakeSieveOps {
    type V = ScriptStore;

    open spec fn view(&self) -> ScriptStore {
        ScriptStore {
            scripts: texts_in(self.scripts@),
            active: opt_text(self.active),
            put_log: texts(self.put_log@),
        }
    }
}

impl Default for FakeSieveOps {
    fn default() -> (r: FakeSieveOps)
        ensures
            r@ == (ScriptStore { scripts: Map::empty(), active: None, put_log: Seq::empty() }),
    {
        let r = FakeSieveOps { scripts: TextMap::new(), active: None, put_log: Vec::new() };
        assert(r@.scripts =~= Map::empty());
        assert(r@.put_log =~= Seq::empty());
        r
    }
}

impl FakeSieveOps {
    /// A server without scripts.
    pub fn new() -> (r: FakeSieveOps)
        ensures
            r@ == (ScriptStore { scripts: Map::empty(), active: None, put_log: Seq::empty() }),
    {
        FakeSieveOps::default()
    }

    /// Seed an existing (optionally active) script.
    pub fn with_script(self, name: &str, content: &str, active: bool) -> (r: FakeSieveOps)
        ensures
            r@ == (ScriptStore {
                scripts: self@.scripts.insert(name@, content@),
                active: if active {
                    Some(name@)
                } else {
                    self@.active
                },
                ..self@
            }),
    {
        let mut scripts = self.scripts;
        scripts.insert(name.to_string(), content.to_string());
        let active = if active {
            Some(name.to_string())
        } else {
            self.active
        };
        let r = FakeSieveOps { scripts, active, put_log: self.put_log };
        assert(r@.scripts =~= self@.scripts.insert(name@, content@));
        r
    }
}

impl SieveOps for FakeSieveOps {
    open spec fn active_step(
        pre: FakeSieveOps,
        post: FakeSieveOps,
        r: Result<Option<Seq<char>>, Seq<char>>,
    ) -> bool {
        post == pre && r == Ok::<Option<Seq<char>>, Seq<char>>(pre@.active)
    }

    open spec fn get_step(
        pre: FakeSieveOps,
        name: Seq<char>,
        post: FakeSieveOps,
        r: Result<Option<Seq<char>>, Seq<char>>,
    ) -> bool {
        post == pre && r == Ok::<Option<Seq<char>>, Seq<char>>(pre@.script(name))
    }

    open spec fn put_step(
        pre: FakeSieveOps,
        name: Seq<char>,
        content: Seq<char>,
        post: FakeSieveOps,
        r: Result<(), Seq<char>>,
    ) -> bool {
        (post@, r) == pre@.put(name, content)
    }

    open spec fn activate_step(
        pre: FakeSieveOps,
        name: Seq<char>,
        post: FakeSieveOps,
        r: Result<(), Seq<char>>,
    ) -> bool {
        (post@, r) == pre@.activate(name)
    }

    fn active_script(&mut self) -> (r: Result<Option<String>, Error>) {
        Ok(clone_opt(&self.active))
    }

    fn get_script(&mut self, name: &str) -> (r: Result<Option<String>, Error>) {
        match self.scripts.get(name) {
            Some(s) => Ok(Some(s.clone())),
            None => Ok(None),
        }
    }

    fn put_script(&mut self, name: &str, content: &str) -> (r: Result<(), Error>) {
        let ghost pre = self@;
        let text = to_chars(content);
        // Mimic the server's validation: a sieve using fileinto must require it.
        if contains_text(&text, &to_chars("fileinto")) && !contains_text(
            &text,
            &to_chars("require"),
        ) {
            return Err(
                Error::new("PUTSCRIPT rejected: fileinto used without require".to_string()),
            );
        }
        self.scripts.insert(name.to_string(), content.to_string());
        self.put_log.push(name.to_string());
        proof {
            assert(self@.scripts =~= pre.scripts.insert(name@, content@));
            assert(self@.put_log =~= pre.put_log.push(name@));
        }
        Ok(())
    }

    fn set_active(&mut self, name: &str) -> (r: Result<(), Error>) {
        if !self.scripts.contains_key(name) {
            let mut message = "SETACTIVE of nonexistent script ".to_string();
            message.push_str(name);
            return Err(Error::new(message));
        }
        self.active = Some(name.to_string());
        Ok(())
    }
}

} // verus!
