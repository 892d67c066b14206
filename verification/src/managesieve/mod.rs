//! Deploy the generated Sieve rules to the server.
//!
//! The [`SieveDeployer`] fetches the account's active Sieve script, merges the managed
//! rule block into it (preserving hand-written rules), then uploads and activates the
//! result. The wire protocol is abstracted behind [`SieveOps`], so the logic runs against
//! [`FakeSieveOps`] as well as against a live server.

pub mod fake;
pub mod laws;
pub mod session;
pub mod wire;

pub use fake::FakeSieveOps;

use vstd::prelude::*;
use vstd::utf8::encode_utf8;

use crate::error::{told, Error};
use crate::model::{SieveRule, SieveRuleView};
use crate::seqs::all_views;
use crate::sieve::{merge, merged};
use crate::text::opt_text;

verus! {

/// Default script name used when the account has no active Sieve script yet.
pub const DEFAULT_SCRIPT: &'static str = "mail-util";

/// A result with views in place of an optional text and the error.
pub open spec fn told_text(r: Result<Option<String>, Error>) -> Result<
    Option<Seq<char>>,
    Seq<char>,
> {
    match r {
        Ok(s) => Ok(opt_text(s)),
        Err(e) => Err(e@),
    }
}

/// The ManageSieve operations the deployer needs. Script names are bare (unquoted). What a
/// call may do is said by a relation between the session before, the arguments, the
/// session after and the result; of a session that gives none, nothing is known.
pub trait SieveOps: Sized {
    /// `active_script` may turn `pre` into `post` with the result `r`.
    open spec fn active_step(
        pre: Self,
        post: Self,
        r: Result<Option<Seq<char>>, Seq<char>>,
    ) -> bool {
        true
    }

    /// `get_script` may turn `pre` into `post` with the result `r`.
    open spec fn get_step(
        pre: Self,
        name: Seq<char>,
        post: Self,
        r: Result<Option<Seq<char>>, Seq<char>>,
    ) -> bool {
        true
    }

    /// `put_script` may turn `pre` into `post` with the result `r`.
    open spec fn put_step(
        pre: Self,
        name: Seq<char>,
        content: Seq<char>,
        post: Self,
        r: Result<(), Seq<char>>,
    ) -> bool {
        true
    }

    /// `set_active` may turn `pre` into `post` with the result `r`.
    open spec fn activate_step(
        pre: Self,
        name: Seq<char>,
        post: Self,
        r: Result<(), Seq<char>>,
    ) -> bool {
        true
    }

    /// Name of the currently active script, if any.
    fn active_script(&mut self) -> (r: Result<Option<String>, Error>)
        ensures
            Self::active_step(*old(self), *final(self), told_text(r)),
    ;

    /// Fetch a script's contents, or `None` if it does not exist.
    fn get_script(&mut self, name: &str) -> (r: Result<Option<String>, Error>)
        ensures
            Self::get_step(*old(self), name@, *final(self), told_text(r)),
    ;

    /// Upload a script. The server validates it, so an invalid script errors.
    fn put_script(&mut self, name: &str, content: &str) -> (r: Result<(), Error>)
        ensures
            Self::put_step(*old(self), name@, content@, *final(self), told(r)),
    ;

    /// Make a script the active one.
    fn set_active(&mut self, name: &str) -> (r: Result<(), Error>)
        ensures
            Self::activate_step(*old(self), name@, *final(self), told(r)),
    ;
}

/// What was deployed.
#[derive(Debug, Clone, PartialEq, Eq)]
pub struct DeployReport {
    /// The script that was written and activated.
    pub script: String,
    /// Size of the merged script in bytes.
    pub bytes: usize,
    /// True if the script did not exist before (freshly created).
    pub created: bool,
}

/// The view of a [`DeployReport`].
#[verifier::ext_equal]
pub ghost struct DeployView {
    pub script: Seq<char>,
    pub bytes: nat,
    pub created: bool,
}

impl View for DeployReport {
    type V = DeployView;

    open spec fn view(&self) -> DeployView {
        DeployView { script: self.script@, bytes: self.bytes as nat, created: self.created }
    }
}

/// A script that may not exist, as text.
pub open spec fn or_empty(script: Option<Seq<char>>) -> Seq<char> {
    match script {
        Some(s) => s,
        None => Seq::empty(),
    }
}

/// The target script was chosen: the preferred one, else the active one, else the default.
pub open spec fn targeted<O: SieveOps>(
    pre: O,
    preferred: Option<Seq<char>>,
    post: O,
    r: Result<Seq<char>, Seq<char>>,
) -> bool {
    match preferred {
        Some(name) => post == pre && r == Ok::<Seq<char>, Seq<char>>(name),
        None => exists|a: Result<Option<Seq<char>>, Seq<char>>|
            {
                &&& #[trigger] O::active_step(pre, post, a)
                &&& r == match a {
                    Ok(Some(name)) => Ok::<Seq<char>, Seq<char>>(name),
                    Ok(None) => Ok(DEFAULT_SCRIPT@),
                    Err(e) => Err(e),
                }
            },
    }
}

/// The target was chosen and fetched: its name and what it holds.
pub open spec fn fetched<O: SieveOps>(
    pre: O,
    preferred: Option<Seq<char>>,
    post: O,
    r: Result<(Seq<char>, Option<Seq<char>>), Seq<char>>,
) -> bool {
    ||| exists|e: Seq<char>| #[trigger]
        targeted(pre, preferred, post, Err(e)) && r == Err::<
            (Seq<char>, Option<Seq<char>>),
            Seq<char>,
        >(e)
    ||| exists|chosen: O, name: Seq<char>, got: Result<Option<Seq<char>>, Seq<char>>|
        {
            &&& #[trigger] targeted(pre, preferred, chosen, Ok(name))
            &&& #[trigger] O::get_step(chosen, name, post, got)
            &&& r == match got {
                Ok(script) => Ok::<(Seq<char>, Option<Seq<char>>), Seq<char>>((name, script)),
                Err(e) => Err(e),
            }
        }
}

/// A preview: the target was fetched, and nothing else was asked of the server. The result
/// is what it holds, merged with the rules.
pub open spec fn previewed<O: SieveOps>(
    pre: O,
    preferred: Option<Seq<char>>,
    rules: Seq<SieveRuleView>,
    post: O,
    r: Result<Seq<char>, Seq<char>>,
) -> bool {
    exists|got: Result<(Seq<char>, Option<Seq<char>>), Seq<char>>| #[trigger]
        fetched(pre, preferred, post, got) && r == match got {
            Ok((_, script)) => Ok::<Seq<char>, Seq<char>>(merged(or_empty(script), rules)),
            Err(e) => Err(e),
        }
}

/// A deployment: the target was fetched, the merged script uploaded under its name, and
/// that name activated, each only after the one before it succeeded.
pub open spec fn deployed<O: SieveOps>(
    pre: O,
    preferred: Option<Seq<char>>,
    rules: Seq<SieveRuleView>,
    post: O,
    r: Result<DeployView, Seq<char>>,
) -> bool {
    ||| exists|e: Seq<char>| #[trigger]
        fetched(pre, preferred, post, Err(e)) && r == Err::<DeployView, Seq<char>>(e)
    ||| exists|known: O, name: Seq<char>, script: Option<Seq<char>>, e: Seq<char>|
        {
            &&& #[trigger] fetched(pre, preferred, known, Ok((name, script)))
            &&& #[trigger] O::put_step(known, name, merged(or_empty(script), rules), post, Err(e))
            &&& r == Err::<DeployView, Seq<char>>(e)
        }
    ||| exists|
        known: O,
        put: O,
        name: Seq<char>,
        script: Option<Seq<char>>,
        last: Result<(), Seq<char>>,
    |
        {
            &&& #[trigger] fetched(pre, preferred, known, Ok((name, script)))
            &&& #[trigger] O::put_step(known, name, merged(or_empty(script), rules), put, Ok(()))
            &&& #[trigger] O::activate_step(put, name, post, last)
            &&& r == match last {
                Ok(_) => Ok::<DeployView, Seq<char>>(
                    DeployView {
                        script: name,
                        bytes: encode_utf8(merged(or_empty(script), rules)).len(),
                        created: script is None,
                    },
                ),
                Err(e) => Err(e),
            }
        }
}

/// The view of an optional name.
pub open spec fn opt_name(name: Option<&str>) -> Option<Seq<char>> {
    match name {
        Some(n) => Some(n@),
        None => None,
    }
}

/// A result with views in place of the text and the error.
pub open spec fn told_script(r: Result<String, Error>) -> Result<Seq<char>, Seq<char>> {
    match r {
        Ok(s) => Ok(s@),
        Err(e) => Err(e@),
    }
}

/// A result with views in place of the report and the error.
pub open spec fn told_report(r: Result<DeployReport, Error>) -> Result<DeployView, Seq<char>> {
    match r {
        Ok(report) => Ok(report@),
        Err(e) => Err(e@),
    }
}

/// Merges the tool's rules into a server-side Sieve script and activates it.
pub struct SieveDeployer<O: SieveOps> {
    pub ops: O,
}

impl<O: SieveOps> SieveDeployer<O> {
    /// A deployer over the given session.
    pub fn new(ops: O) -> (r: SieveDeployer<O>)
        ensures
            r.ops == ops,
    {
        SieveDeployer { ops }
    }

    /// Choose the target script: an explicit `preferred` name, else the active script,
    /// else [`DEFAULT_SCRIPT`].
    fn target(&mut self, preferred: Option<&str>) -> (r: Result<String, Error>)
        ensures
            targeted(old(self).ops, opt_name(preferred), final(self).ops, told_script(r)),
    {
        if let Some(name) = preferred {
            return Ok(name.to_string());
        }
        let ghost pre = self.ops;
        match self.ops.active_script() {
            Ok(Some(name)) => {
                assert(O::active_step(pre, self.ops, Ok(Some(name@))));
                Ok(name)
            },
            Ok(None) => {
                assert(O::active_step(pre, self.ops, Ok(None)));
                Ok(DEFAULT_SCRIPT.to_string())
            },
            Err(e) => {
                assert(O::active_step(pre, self.ops, Err(e@)));
                Err(e)
            },
        }
    }

    /// Choose the target script and fetch it.
    fn fetch(&mut self, preferred: Option<&str>) -> (r: Result<(String, Option<String>), Error>)
        ensures
            fetched(
                old(self).ops,
                opt_name(preferred),
                final(self).ops,
                match r {
                    Ok((name, script)) => Ok((name@, opt_text(script))),
                    Err(e) => Err(e@),
                },
            ),
    {
        let ghost pre = self.ops;
        let name = match self.target(preferred) {
            Ok(name) => name,
            Err(e) => {
                assert(targeted(pre, opt_name(preferred), self.ops, Err(e@)));
                return Err(e);
            },
        };
        let ghost chosen = self.ops;
        assert(targeted(pre, opt_name(preferred), chosen, Ok(name@)));
        match self.ops.get_script(&name) {
            Ok(script) => {
                assert(O::get_step(chosen, name@, self.ops, Ok(opt_text(script))));
                Ok((name, script))
            },
            Err(e) => {
                assert(O::get_step(chosen, name@, self.ops, Err(e@)));
                Err(e)
            },
        }
    }

    /// Compute the merged script that would be deployed, without uploading anything.
    pub fn preview(&mut self, preferred: Option<&str>, rules: &[SieveRule]) -> (r: Result<
        String,
        Error,
    >)
        ensures
            previewed(
                old(self).ops,
                opt_name(preferred),
                all_views(rules@),
                final(self).ops,
                told_script(r),
            ),
    {
        let ghost pre = self.ops;
        match self.fetch(preferred) {
            Ok((name, script)) => {
                assert(fetched(
                    pre,
                    opt_name(preferred),
                    self.ops,
                    Ok((name@, opt_text(script))),
                ));
                Ok(merge_into(&script, rules))
            },
            Err(e) => {
                assert(fetched(pre, opt_name(preferred), self.ops, Err(e@)));
                Err(e)
            },
        }
    }

    /// Fetch, merge, upload, activate. Returns what was written.
    pub fn deploy(&mut self, preferred: Option<&str>, rules: &[SieveRule]) -> (r: Result<
        DeployReport,
        Error,
    >)
        ensures
            deployed(
                old(self).ops,
                opt_name(preferred),
                all_views(rules@),
                final(self).ops,
                told_report(r),
            ),
    {
        let ghost pre = self.ops;
        let (name, script) = match self.fetch(preferred) {
            Ok(found) => found,
            Err(e) => {
                assert(fetched(pre, opt_name(preferred), self.ops, Err(e@)));
                return Err(e);
            },
        };
        let ghost known = self.ops;
        assert(fetched(pre, opt_name(preferred), known, Ok((name@, opt_text(script)))));
        let created = script.is_none();
        let text = merge_into(&script, rules);
        match self.ops.put_script(&name, &text) {
            Ok(_) => {},
            Err(e) => {
                assert(O::put_step(known, name@, text@, self.ops, Err(e@)));
                return Err(e);
            },
        }
        let ghost put = self.ops;
        assert(O::put_step(known, name@, text@, put, Ok(())));
        match self.ops.set_active(&name) {
            Ok(_) => {},
            Err(e) => {
                assert(O::activate_step(put, name@, self.ops, Err(e@)));
                return Err(e);
            },
        }
        assert(O::activate_step(put, name@, self.ops, Ok(())));
        let bytes: usize = text.as_str().as_bytes().len();
        Ok(DeployReport { script: name, bytes, created })
    }
}

/// Merge rules into a script that may not exist.
fn merge_into(script: &Option<String>, rules: &[SieveRule]) -> (r: String)
    ensures
        r@ == merged(or_empty(opt_text(*script)), all_views(rules@)),
{
    match script {
        Some(s) => merge(s, rules),
        None => {
            let empty = String::new();
            assert(empty@ =~= Seq::empty());
            merge(&empty, rules)
        },
    }
}

} // verus!
