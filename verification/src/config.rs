//! The configuration of one running instance.
//!
//! The configuration is loaded once at start and handed explicitly to the
//! functions that need it: the link types a link may carry, the default link
//! type, the allowed tag set, and the serving and debouncing options.

use crate::error::ConfigParseError;
use vstd::prelude::*;

verus! {

pub fn default_action_keywords() -> (r: Vec<String>)
    ensures
        r@.len() == 2,
        r@[0]@ == "TODO"@,
        r@[1]@ == "DONE"@,
{
    let mut v: Vec<String> = Vec::new();
    v.push("TODO".to_owned());
    v.push("DONE".to_owned());
    v
}

pub fn default_link_types() -> (r: Vec<String>)
    ensures
        r@.len() == 1,
        r@[0]@ == "link"@,
{
    let mut v: Vec<String> = Vec::new();
    v.push("link".to_owned());
    v
}

pub fn default_default_link_type() -> (r: String)
    ensures
        r@ == "link"@,
{
    "link".to_owned()
}

pub fn default_tags() -> (r: Vec<String>)
    ensures
        r@.len() == 0,
{
    Vec::new()
}

pub fn default_host() -> (r: String)
    ensures
        r@ == "localhost"@,
{
    "localhost".to_owned()
}

pub fn default_port() -> (r: u16)
    ensures
        r == 3000u16,
{
    3000
}

pub fn default_debounce_duration() -> (r: u64)
    ensures
        r == 300u64,
{
    300
}

/// The user's configuration. Any modification requires a full restart.
pub struct Config {
    /// The keywords used on action item headings, such as `TODO` and `DONE`.
    pub action_keywords: Vec<String>,
    /// The types links between nodes may carry. None of these can be the
    /// empty string.
    pub link_types: Vec<String>,
    /// The default type of link. This must be contained in `link_types`.
    pub default_link_type: String,
    /// All the tags nodes are allowed to have; empty disables tag checking.
    pub tags: Vec<String>,
    /// Milliseconds without filesystem events before a batch is processed.
    pub debounce_duration: u64,
    /// The directory to write rolling daily log files to, once resolved.
    pub log_directory: Option<String>,
    /// Relative paths excluded from watching.
    pub exclude_paths: Vec<String>,
    /// The host to serve on.
    pub host: String,
    /// The port to serve on.
    pub port: u16,
}

/// Whether a sequence of strings holds one with the given characters.
pub open spec fn seq_contains_string(s: Seq<String>, q: Seq<char>) -> bool {
    exists|i: int| 0 <= i < s.len() && (#[trigger] s[i])@ == q
}

/// Whether `probe` occurs in the string vector `v`.
pub(crate) fn vec_contains_string(v: &Vec<String>, probe: &String) -> (r: bool)
    ensures
        r == seq_contains_string(v@, probe@),
{
    let n = v.len();
    let mut i: usize = 0;
    while i < n
        invariant
            n == v@.len(),
            0 <= i <= n,
            forall|j: int| 0 <= j < i ==> (#[trigger] v@[j])@ != probe@,
        decreases n - i,
    {
        if v[i].eq(probe) {
            return true;
        }
        i = i + 1;
    }
    false
}

impl Config {
    /// Whether the configuration is internally consistent: no empty link
    /// type, and the default link type is one of the link types.
    pub open spec fn valid(&self) -> bool {
        &&& !seq_contains_string(self.link_types@, Seq::<char>::empty())
        &&& seq_contains_string(self.link_types@, self.default_link_type@)
    }

    /// Validates this configuration. An empty link type is an error; a
    /// default link type missing from the link types is corrected by adding
    /// it.
    pub fn validate(&mut self) -> (r: Result<(), ConfigParseError>)
        ensures
            match r {
                Ok(()) => final(self).valid() && final(self).default_link_type
                    == old(self).default_link_type,
                Err(e) => e == ConfigParseError::EmptyLinkType && (seq_contains_string(
                    old(self).link_types@,
                    Seq::<char>::empty(),
                ) || (old(self).default_link_type@.len() == 0 && !seq_contains_string(
                    old(self).link_types@,
                    old(self).default_link_type@,
                ))),
            },
    {
        let empty = String::new();
        if vec_contains_string(&self.link_types, &empty) {
            return Err(ConfigParseError::EmptyLinkType);
        }
        // The default link type not being accounted for is a soft error: it
        // is added automatically, unless it is itself empty.
        if !vec_contains_string(&self.link_types, &self.default_link_type) {
            if self.default_link_type.unicode_len() == 0 {
                return Err(ConfigParseError::EmptyLinkType);
            }
            let d = self.default_link_type.clone();
            self.link_types.push(d);
            proof {
                assert(self.link_types@[self.link_types@.len() - 1]@
                    == self.default_link_type@);
                assert(seq_contains_string(self.link_types@, self.default_link_type@));
                assert forall|j: int|
                    0 <= j < self.link_types@.len() implies (#[trigger] self.link_types@[j])@
                    != Seq::<char>::empty() by {
                    if j < self.link_types@.len() - 1 {
                        assert(old(self).link_types@[j]@ != Seq::<char>::empty());
                    } else {
                        assert(self.link_types@[j]@ == self.default_link_type@);
                    }
                }
            }
        }
        Ok(())
    }
}

impl Default for Config {
    fn default() -> (r: Self)
        ensures
            r.valid(),
            r.default_link_type@ == "link"@,
            r.tags@.len() == 0,
            r.debounce_duration == 300u64,
            r.port == 3000u16,
    {
        let r = Config {
            action_keywords: default_action_keywords(),
            link_types: default_link_types(),
            default_link_type: default_default_link_type(),
            tags: default_tags(),
            debounce_duration: default_debounce_duration(),
            log_directory: None,
            exclude_paths: Vec::new(),
            host: default_host(),
            port: default_port(),
        };
        proof {
            assert(r.link_types@[0]@ == r.default_link_type@);
            reveal_strlit("link");
            assert("link"@.len() == 4);
            assert(r.link_types@[0]@ != Seq::<char>::empty());
        }
        r
    }
}

} // verus!
