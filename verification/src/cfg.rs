//! Client configuration: who records, the named JMESPath expressions, and
//! signing

use std::collections::HashMap;
use vstd::prelude::*;
use crate::text::{concat, trim, trimmed};

verus! {

#[verifier::external_type_specification]
#[verifier::external_body]
pub struct ExIni(tini::Ini);

/// What an ini document holds: the value of each key of each section,
/// keyed by (section, key)
pub uninterp spec fn ini_entries(ini: tini::Ini) -> Map<(Seq<char>, Seq<char>), Seq<char>>;

/// What `tini` reads out of a text: the entries of the document, or `None`
/// where the text is not a valid ini document
pub uninterp spec fn ini_document(text: Seq<char>) -> Option<Map<(Seq<char>, Seq<char>), Seq<char>>>;

/// Calls `tini::Ini::from_string`: parses an ini document, `None` where the
/// text does not parse. What the parser accepts is left to `ini_document`.
#[verifier::external_body]
fn parse_ini(text: &str) -> (res: Option<tini::Ini>)
    ensures
        match res {
            Some(ini) => ini_document(text@) == Some(ini_entries(ini)),
            None => ini_document(text@) is None,
        },
{
    tini::Ini::from_string(text).ok()
}

/// Calls `tini::Ini::get` for a `String`: the value of `key` in `section`,
/// `None` where the document has none (parsing into a `String` never fails)
#[verifier::external_body]
fn ini_value(ini: &tini::Ini, section: &str, key: &str) -> (res: Option<String>)
    ensures
        match res {
            Some(v) => ini_entries(*ini).contains_key((section@, key@)) && ini_entries(*ini)[(section@, key@)] == v@,
            None => !ini_entries(*ini).contains_key((section@, key@)),
        },
{
    ini.get::<String>(section, key)
}

/// An author of records
pub struct Author {
    /// Name
    pub name: String,
    /// E-mail address, if any
    pub email: Option<String>,
}

/// An author as a value: name and e-mail address
pub type AuthorView = (Seq<char>, Option<Seq<char>>);

impl View for Author {
    type V = AuthorView;

    open spec fn view(&self) -> AuthorView {
        (self.name@, match self.email {
            Some(e) => Some(e@),
            None => None,
        })
    }
}

/// How an author is written: `name`, or `name <email>`
pub open spec fn author_text(a: AuthorView) -> Seq<char> {
    match a.1 {
        Some(e) => a.0 + " <"@ + e + ">"@,
        None => a.0,
    }
}

/// The author that a git configuration names: the `name` and `email` of its
/// `user` section, when the document parses and holds both
pub open spec fn gitconfig_author(doc: Option<Map<(Seq<char>, Seq<char>), Seq<char>>>) -> Option<AuthorView> {
    match doc {
        Some(m) => {
            let name_key = ("user"@, "name"@);
            let email_key = ("user"@, "email"@);
            if m.contains_key(name_key) && m.contains_key(email_key) {
                Some((m[name_key], Some(m[email_key])))
            } else {
                None
            }
        },
        None => None,
    }
}

impl Author {
    /// The author as text: `name`, or `name <email>`
    pub fn to_string(&self) -> (s: String)
        ensures
            s@ == author_text(self@),
    {
        match &self.email {
            Some(e) => {
                let a = concat(self.name.as_str(), " <");
                let b = concat(a.as_str(), e.as_str());
                let c = concat(b.as_str(), ">");
                proof {
                    reveal_strlit(" <");
                    reveal_strlit(">");
                }
                c
            },
            None => {
                let s = concat(self.name.as_str(), "");
                proof {
                    reveal_strlit("");
                    assert(self.name@ + ""@ == self.name@);
                }
                s
            },
        }
    }

    /// The author that the text of a git configuration names (`user.name`
    /// and `user.email`), if the text parses and names both
    pub fn from_gitconfig(text: &str) -> (r: Option<Author>)
        ensures
            match r {
                Some(a) => gitconfig_author(ini_document(text@)) == Some(a@),
                None => gitconfig_author(ini_document(text@)) is None,
            },
    {
        let ini = match parse_ini(text) {
            Some(i) => i,
            None => return None,
        };
        let name = match ini_value(&ini, "user", "name") {
            Some(n) => n,
            None => return None,
        };
        let email = match ini_value(&ini, "user", "email") {
            Some(e) => e,
            None => return None,
        };
        Some(Author { name, email: Some(email) })
    }
}

/// The value of an optional text
pub open spec fn opt_text(t: Option<&str>) -> Option<Seq<char>> {
    match t {
        Some(x) => Some(x@),
        None => None,
    }
}

/// The author that git configurations name: the repository's own
/// configuration first, then the user's
pub open spec fn git_author(local: Option<Seq<char>>, user: Option<Seq<char>>) -> Option<AuthorView> {
    let from_local = match local {
        Some(t) => gitconfig_author(ini_document(t)),
        None => None,
    };
    if from_local is Some {
        from_local
    } else {
        match user {
            Some(t) => gitconfig_author(ini_document(t)),
            None => None,
        }
    }
}

/// The author that the texts of git configurations name, if any: the
/// repository's configuration (`.git/config`) is preferred over the user's
/// (`~/.gitconfig`); a configuration that could not be read is `None`
pub fn author_from_git(local: Option<&str>, user: Option<&str>) -> (r: Option<Author>)
    ensures
        match r {
            Some(a) => git_author(opt_text(local), opt_text(user)) == Some(a@),
            None => git_author(opt_text(local), opt_text(user)) is None,
        },
{
    let from_local = match local {
        Some(t) => Author::from_gitconfig(t),
        None => None,
    };
    match from_local {
        Some(a) => Some(a),
        None => match user {
            Some(t) => Author::from_gitconfig(t),
            None => None,
        },
    }
}

/// A name given in answer to a question: `None` (ask again) where it is
/// blank, the answer as given otherwise
pub fn name_answer(value: String) -> (r: Option<String>)
    ensures
        match r {
            Some(n) => trimmed(value@).len() > 0 && n@ == value@,
            None => trimmed(value@).len() == 0,
        },
{
    let t = trim(value.as_str());
    if t.as_str().unicode_len() == 0 {
        None
    } else {
        Some(value)
    }
}

/// An e-mail address given in answer to an optional question: `None` where
/// it is blank, the answer as given otherwise
pub fn email_answer(value: String) -> (r: Option<String>)
    ensures
        match r {
            Some(e) => trimmed(value@).len() > 0 && e@ == value@,
            None => trimmed(value@).len() == 0,
        },
{
    name_answer(value)
}

/// Named JMESPath filters and queries
pub struct JMESPathConfig {
    /// Filters by name
    pub filters: HashMap<String, String>,
    /// Queries by name
    pub queries: HashMap<String, String>,
}

impl JMESPathConfig {
    /// A configuration with no filter and no query
    pub fn new() -> (c: JMESPathConfig)
        ensures
            c.filters@.is_empty(),
            c.queries@.is_empty(),
    {
        JMESPathConfig { filters: HashMap::new(), queries: HashMap::new() }
    }

    /// Whether there is neither a filter nor a query
    pub fn is_empty(&self) -> (r: bool)
        ensures
            r == (self.filters@.is_empty() && self.queries@.is_empty()),
    {
        self.filters.is_empty() && self.queries.is_empty()
    }
}

/// Signing of records
pub struct Signing {
    /// Whether records are signed
    pub enabled: bool,
    /// The key to sign with, if any
    pub key: Option<String>,
    /// The gnupg program to sign with, if any
    pub gnupg: Option<String>,
}

impl Signing {
    /// Signing that is off, with no key and no program
    pub fn new() -> (s: Signing)
        ensures
            !s.enabled && s.key is None && s.gnupg is None,
    {
        Signing { enabled: false, key: None, gnupg: None }
    }

    /// Whether signing is off and neither a key nor a program is set
    pub fn is_none(&self) -> (r: bool)
        ensures
            r == (!self.enabled && self.key is None && self.gnupg is None),
    {
        !self.enabled && self.key.is_none() && self.gnupg.is_none()
    }
}

/// Client configuration
pub struct Configuration {
    /// The author, if known
    pub author: Option<Author>,
    /// Named expressions for items
    pub issues: JMESPathConfig,
    /// Named expressions for records
    pub records: JMESPathConfig,
    /// Signing
    pub signing: Signing,
}

impl Configuration {
    /// A configuration with no author, no named expression and no signing
    pub fn new() -> (c: Configuration)
        ensures
            c.author is None,
            c.issues.filters@.is_empty() && c.issues.queries@.is_empty(),
            c.records.filters@.is_empty() && c.records.queries@.is_empty(),
            !c.signing.enabled && c.signing.key is None && c.signing.gnupg is None,
    {
        Configuration { author: None, issues: JMESPathConfig::new(), records: JMESPathConfig::new(), signing: Signing::new() }
    }
}

} // verus!
