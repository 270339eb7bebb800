//! The decisions around handing a signing key to git: which mapping applies,
//! which files hold the key, which agent receives it, and whether an agent
//! already holds it.
use vstd::prelude::*;

use crate::config::{lookup, Config};
use crate::text::{
    chars_of, contains, ends_with, lines, next_word, split_lines, string_of, trim, trim_range,
    vec_contains, words,
};

verus! {

/// Why a key path is refused.
#[derive(Debug)]
pub enum KeyPathError {
    /// The path starts with `-`, so `ssh-add` would read it as an option.
    OptionLike(String),
}

/// Why a key loaded into an agent is still not usable for signing.
#[derive(Debug, PartialEq, Eq)]
pub enum AgentLoadError {
    /// The agent that received the key holds it, but the agent git uses does not.
    HiddenFromGit,
    /// Neither agent holds the key.
    Missing,
}

// ----------------------------------------------------------------------------
// Specifications
// ----------------------------------------------------------------------------

/// The extension of a public key file.
pub open spec fn pub_suffix() -> Seq<char> {
    ".pub"@
}

/// The private and public key files for a configured key path: a path ending
/// in `.pub` names the public file, any other the private one.
pub open spec fn key_file_paths(path: Seq<char>) -> (Seq<char>, Seq<char>) {
    if ends_with(path, pub_suffix()) {
        (path.take(path.len() - 4), path)
    } else {
        (path, path + pub_suffix())
    }
}

/// What identifies a public key in an agent's listing: its first two
/// whitespace-separated fields (key type and base64 blob), joined by a space.
pub open spec fn key_id(key_content: Seq<char>) -> Option<Seq<char>> {
    let ws = words(key_content);
    if ws.len() >= 2 {
        Some(ws[0] + seq![' '] + ws[1])
    } else {
        None
    }
}

/// Whether an agent's key listing holds the public key: some line of it
/// contains the key's type and blob.
pub open spec fn listing_holds_key(listing: Seq<char>, key_content: Seq<char>) -> bool {
    match key_id(key_content) {
        Some(id) => exists|i: int|
            0 <= i < lines(listing).len() && contains(#[trigger] lines(listing)[i], id),
        None => false,
    }
}

/// The key of the first connected device whose serial the configuration maps,
/// in the order the devices were found. A device that reports no serial
/// (`None`) matches no mapping.
pub open spec fn first_configured_key(
    es: Seq<crate::config::EntryView>,
    serials: Seq<Option<Seq<char>>>,
) -> Option<Seq<char>>
    decreases serials.len(),
{
    if serials.len() == 0 {
        None
    } else {
        match serials[0] {
            Some(s) => match lookup(es, s) {
                Some(k) => Some(k),
                None => first_configured_key(es, serials.drop_first()),
            },
            None => first_configured_key(es, serials.drop_first()),
        }
    }
}

// ----------------------------------------------------------------------------
// Executable code
// ----------------------------------------------------------------------------

/// Refuses a key path that `ssh-add`, which has no `--`, would read as an
/// option (such as `-D`, which empties the agent).
pub fn check_key_path(priv_path: &str) -> (r: Result<(), KeyPathError>)
    ensures
        r is Err <==> (priv_path@.len() > 0 && priv_path@[0] == '-'),
        r matches Err(KeyPathError::OptionLike(p)) ==> p@ == priv_path@,
{
    let v = chars_of(priv_path);
    if v.len() > 0 && v[0] == '-' {
        Err(KeyPathError::OptionLike(priv_path.to_owned()))
    } else {
        Ok(())
    }
}

/// The agent socket a key is added through: the first of the two settings
/// (the dedicated one, then the standard one) that is set and not empty.
pub fn choose_agent_sock(dedicated: Option<String>, standard: Option<String>) -> (r: Option<String>)
    ensures
        dedicated matches Some(d) && d@.len() > 0 ==> r == dedicated,
        !(dedicated matches Some(d) && d@.len() > 0) && (standard matches Some(s) && s@.len() > 0)
            ==> r == standard,
        !(dedicated matches Some(d) && d@.len() > 0) && !(standard matches Some(s) && s@.len()
            > 0) ==> r is None,
{
    if let Some(d) = &dedicated {
        if !d.as_str().is_empty() {
            return dedicated;
        }
    }
    if let Some(s) = &standard {
        if !s.as_str().is_empty() {
            return standard;
        }
    }
    None
}

/// Whether an agent's key listing (`ssh-add -L`) holds the public key.
pub fn agent_holds_key(listing: &str, key_content: &str) -> (b: bool)
    ensures
        b == listing_holds_key(listing@, key_content@),
{
    let kv = chars_of(key_content);
    let (a0, b0) = next_word(&kv, 0);
    assert(kv@.skip(0) =~= kv@);
    if a0 == kv.len() {
        return false;
    }
    let (a1, b1) = next_word(&kv, b0);
    if a1 == kv.len() {
        return false;
    }
    let mut id: Vec<char> = Vec::new();
    let mut i = a0;
    while i < b0
        invariant
            a0 <= i <= b0 <= kv.len(),
            id@ == kv@.subrange(a0 as int, i as int),
        decreases b0 - i,
    {
        id.push(kv[i]);
        assert(kv@.subrange(a0 as int, i + 1) =~= kv@.subrange(a0 as int, i as int).push(kv@[i as int]));
        i += 1;
    }
    id.push(' ');
    let ghost head = id@;
    let mut i = a1;
    while i < b1
        invariant
            a1 <= i <= b1 <= kv.len(),
            id@ == head + kv@.subrange(a1 as int, i as int),
        decreases b1 - i,
    {
        id.push(kv[i]);
        assert(kv@.subrange(a1 as int, i + 1) =~= kv@.subrange(a1 as int, i as int).push(kv@[i as int]));
        i += 1;
    }
    proof {
        let ws = words(kv@);
        assert(ws.len() >= 2);
        assert(ws[0] == kv@.subrange(a0 as int, b0 as int));
        assert(ws[1] == kv@.subrange(a1 as int, b1 as int));
        assert(id@ =~= ws[0] + seq![' '] + ws[1]);
        assert(key_id(key_content@) == Some(id@));
    }
    let lv = chars_of(listing);
    let ls = split_lines(&lv);
    let mut k: usize = 0;
    while k < ls.len()
        invariant
            k <= ls.len(),
            ls.deep_view() == lines(listing@),
            key_id(key_content@) == Some(id@),
            forall|j: int| 0 <= j < k ==> !contains(#[trigger] lines(listing@)[j], id@),
        decreases ls.len() - k,
    {
        assert(ls.deep_view()[k as int] == ls[k as int]@);
        if vec_contains(&ls[k], &id) {
            assert(contains(lines(listing@)[k as int], id@));
            assert(ls.deep_view().len() == ls.len());
            assert(0 <= k < lines(listing@).len());
            return true;
        }
        k += 1;
    }
    false
}

/// The private and public key files for a configured key path.
pub fn signing_key_paths(key_path: &str) -> (r: (String, String))
    ensures
        r.0@ == key_file_paths(key_path@).0,
        r.1@ == key_file_paths(key_path@).1,
        r.1@ == r.0@ + ".pub"@,
        ends_with(key_path@, ".pub"@) ==> r.1@ == key_path@,
        !ends_with(key_path@, ".pub"@) ==> r.0@ == key_path@,
{
    proof {
        law_key_file_paths(key_path@);
    }
    let v = chars_of(key_path);
    proof {
        reveal_strlit(".pub");
    }
    let n = v.len();
    if n >= 4 && v[n - 4] == '.' && v[n - 3] == 'p' && v[n - 2] == 'u' && v[n - 1] == 'b' {
        assert(v@.skip(n - 4) =~= pub_suffix());
        (string_of(&v, 0, n - 4), key_path.to_owned())
    } else {
        assert(!ends_with(v@, pub_suffix())) by {
            if ends_with(v@, pub_suffix()) {
                assert(pub_suffix().len() == 4);
                assert(pub_suffix()[0] == '.' && pub_suffix()[1] == 'p' && pub_suffix()[2] == 'u'
                    && pub_suffix()[3] == 'b');
                assert(v@.skip(n - 4)[0] == v@[n - 4]);
                assert(v@.skip(n - 4)[1] == v@[n - 3]);
                assert(v@.skip(n - 4)[2] == v@[n - 2]);
                assert(v@.skip(n - 4)[3] == v@[n - 1]);
            }
        }
        let mut public = key_path.to_owned();
        public.append(".pub");
        (key_path.to_owned(), public)
    }
}

/// The public key file is always the private one followed by `.pub`; a path
/// ending in `.pub` is the public file and any other path is the private one.
pub proof fn law_key_file_paths(path: Seq<char>)
    ensures
        key_file_paths(path).1 == key_file_paths(path).0 + ".pub"@,
        ends_with(path, ".pub"@) ==> key_file_paths(path).1 == path,
        !ends_with(path, ".pub"@) ==> key_file_paths(path).0 == path,
{
    if ends_with(path, pub_suffix()) {
        reveal_strlit(".pub");
        assert(path.take(path.len() - 4) + pub_suffix() =~= path);
    }
}

/// The key path for the first of the connected devices' serials that the
/// configuration maps, in the order the devices were found; a device that
/// reports no serial (`None`) matches nothing.
pub fn select_signing_key(cfg: &Config, serials: &Vec<Option<String>>) -> (r: Option<String>)
    ensures
        match first_configured_key(cfg@, serials.deep_view()) {
            Some(k) => r matches Some(x) && x@ == k,
            None => r is None,
        },
{
    let mut i: usize = 0;
    assert(serials.deep_view().skip(0) =~= serials.deep_view());
    while i < serials.len()
        invariant
            i <= serials.len(),
            first_configured_key(cfg@, serials.deep_view()) == first_configured_key(
                cfg@,
                serials.deep_view().skip(i as int),
            ),
        decreases serials.len() - i,
    {
        let ghost rest = serials.deep_view().skip(i as int);
        assert(rest[0] == serials[i as int].deep_view());
        assert(rest.drop_first() =~= serials.deep_view().skip(i + 1));
        if let Some(s) = &serials[i] {
            assert(s.deep_view() == s@);
            match cfg.get(s.as_str()) {
                Some(k) => {
                    return Some(k.to_owned());
                },
                None => {},
            }
        }
        i += 1;
    }
    assert(serials.deep_view().skip(i as int).len() == 0);
    None
}

/// What a load into the agent came to, from whether the agent git uses holds
/// the key afterwards and whether the agent that received it does.
pub fn load_outcome(in_git_agent: bool, in_receiving_agent: bool) -> (r: Result<
    (),
    AgentLoadError,
>)
    ensures
        in_git_agent ==> r is Ok,
        !in_git_agent && in_receiving_agent ==> r matches Err(AgentLoadError::HiddenFromGit),
        !in_git_agent && !in_receiving_agent ==> r matches Err(AgentLoadError::Missing),
{
    if in_git_agent {
        Ok(())
    } else if in_receiving_agent {
        Err(AgentLoadError::HiddenFromGit)
    } else {
        Err(AgentLoadError::Missing)
    }
}

/// The answer to git's `gpg.ssh.defaultKeyCommand`: `key::` followed by the
/// public key file's text without surrounding whitespace.
pub fn default_key_answer(public_key_text: &str) -> (r: String)
    ensures
        r@ == "key::"@ + trim(public_key_text@),
{
    let v = chars_of(public_key_text);
    let (a, b) = trim_range(&v, 0, v.len());
    assert(v@.subrange(0, v.len() as int) =~= v@);
    let key = string_of(&v, a, b);
    let mut r = String::from_str("key::");
    r.append(key.as_str());
    r
}

} // verus!
