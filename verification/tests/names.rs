use mail_util::namemap::NameMap;
use mail_util::suggest::slug::{domain_slug, is_opaque_slug, list_slug, person_slug, slugify};

#[test]
fn dotpath_to_imap_dot_separator() {
    let nm = NameMap::new('.');
    assert_eq!(nm.dotpath_to_imap(".lists/.elixir"), "lists.elixir");
    assert_eq!(nm.dotpath_to_imap(".INBOX"), "INBOX");
    assert_eq!(nm.dotpath_to_imap(".vendors/.rei"), "vendors.rei");
}

#[test]
fn dotpath_to_imap_slash_separator() {
    let nm = NameMap::new('/');
    assert_eq!(nm.dotpath_to_imap(".lists/.elixir"), "lists/elixir");
    assert_eq!(nm.dotpath_to_imap(".INBOX"), "INBOX");
}

#[test]
fn sieve_target_matches_imap() {
    let nm = NameMap::new('.');
    assert_eq!(nm.dotpath_to_sieve(".lists/.elixir"), "lists.elixir");
}

#[test]
fn imap_to_dotpath_roundtrips() {
    for sep in ['.', '/'] {
        let nm = NameMap::new(sep);
        for dotpath in [".INBOX", ".lists/.elixir", ".people/.jane-doe", ".a/.b/.c"] {
            let imap = nm.dotpath_to_imap(dotpath);
            assert_eq!(nm.imap_to_dotpath(&imap), dotpath, "sep={sep} dotpath={dotpath}");
        }
    }
}

#[test]
fn components_strip_leading_dots() {
    assert_eq!(NameMap::dotpath_components(".lists/.elixir"), vec!["lists", "elixir"]);
    assert_eq!(NameMap::dotpath_components(".INBOX"), vec!["INBOX"]);
}

#[test]
fn slugify_basic() {
    assert_eq!(slugify("La Ruby!"), "la-ruby");
    assert_eq!(slugify("dead_snakes"), "dead-snakes");
    assert_eq!(slugify("  spaced  "), "spaced");
}

#[test]
fn slugs_keep_letters_and_digits() {
    assert_eq!(slugify("--A1 b__C..9é"), "a1-b-c-9");
    assert_eq!(slugify("éé"), "");
    let s = "Mixed CASE, 42 words!";
    let kept: String = slugify(s).chars().filter(|c| *c != '-').collect();
    let letters: String =
        s.chars().filter(|c| c.is_ascii_alphanumeric()).map(|c| c.to_ascii_lowercase()).collect();
    assert_eq!(kept, letters);
}

#[test]
fn list_slug_takes_first_label() {
    assert_eq!(list_slug("elixir-lang.groups.io"), "elixir-lang");
    assert_eq!(list_slug("parents1.labschool.ucla.edu"), "parents1");
}

#[test]
fn domain_slug_registrable() {
    assert_eq!(domain_slug("github.com"), "github");
    assert_eq!(domain_slug("news.ycombinator.com"), "ycombinator");
    assert_eq!(domain_slug("shop.example.co.uk"), "example");
}

#[test]
fn detects_opaque_slugs() {
    assert!(is_opaque_slug("9d03786bc12364dc5eca9fb32"));
    assert!(is_opaque_slug("100025145"));
    assert!(is_opaque_slug("www"));
    assert!(is_opaque_slug(""));
    assert!(!is_opaque_slug("danieldrezner"));
    assert!(!is_opaque_slug("elixir-lang"));
    assert!(!is_opaque_slug("parents1")); // has letters, not a blob
}

#[test]
fn person_slug_prefers_name() {
    assert_eq!(person_slug("jane.doe@gmail.com", Some("Jane Doe")), "jane-doe");
    assert_eq!(person_slug("jdoe@gmail.com", None), "jdoe");
}
