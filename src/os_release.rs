//! Reading the `KEY=value` lines of an os-release file.

use vstd::prelude::*;
use vstd::string::StrSliceExecFns;

verus! {

broadcast use vstd::seq::group_seq_axioms;

/// Index of the first `c` in `s` at or after `i`, or the length of `s`.
pub open spec fn char_index_from(s: Seq<char>, c: char, i: int) -> int
    decreases s.len() - i,
{
    if i < 0 || i >= s.len() {
        s.len() as int
    } else if s[i] == c {
        i
    } else {
        char_index_from(s, c, i + 1)
    }
}

/// Index of the first `c` in `s`, or the length of `s`.
pub open spec fn char_index(s: Seq<char>, c: char) -> int {
    char_index_from(s, c, 0)
}

proof fn lemma_char_index_from(s: Seq<char>, c: char, i: int)
    requires
        0 <= i <= s.len(),
    ensures
        i <= char_index_from(s, c, i) <= s.len(),
    decreases s.len() - i,
{
    if i < s.len() && s[i] != c {
        lemma_char_index_from(s, c, i + 1);
    }
}

/// Finds the first `c` in `s`.
fn find_char(s: &str, c: char) -> (r: usize)
    ensures
        r as int == char_index(s@, c),
        r <= s@.len(),
{
    proof {
        lemma_char_index_from(s@, c, 0);
    }
    let n = s.unicode_len();
    let mut i: usize = 0;
    while i < n
        invariant
            n == s@.len(),
            i <= n,
            char_index(s@, c) == char_index_from(s@, c, i as int),
        decreases n - i,
    {
        if s.get_char(i) == c {
            return i;
        }
        i = i + 1;
    }
    i
}

/// A value without the double quotes around it.
pub open spec fn unquote(v: Seq<char>) -> Seq<char> {
    if v.len() > 0 && v[0] == '"' {
        if v.len() >= 2 {
            v.subrange(1, v.len() - 1)
        } else {
            Seq::empty()
        }
    } else {
        v
    }
}

/// Key and value of a line: the key runs up to the first `=`, the value
/// from there up to the next `=` or the end, unquoted. A line without `=`
/// has none.
pub open spec fn line_entry(line: Seq<char>) -> Option<(Seq<char>, Seq<char>)> {
    let e = char_index(line, '=');
    if e >= line.len() {
        None
    } else {
        let rest = line.subrange(e + 1, line.len() as int);
        Some((line.subrange(0, e), unquote(rest.subrange(0, char_index(rest, '=')))))
    }
}

/// Value of `key` in a text of lines; a later line overrides an earlier
/// one.
pub open spec fn os_release_lookup(text: Seq<char>, key: Seq<char>) -> Option<Seq<char>>
    decreases text.len(),
{
    let i = char_index(text, '\n');
    let later = if 0 <= i < text.len() {
        os_release_lookup(text.subrange(i + 1, text.len() as int), key)
    } else {
        None
    };
    if later is Some {
        later
    } else {
        match line_entry(text.subrange(0, i)) {
            Some((k, v)) => if k == key {
                Some(v)
            } else {
                None
            },
            None => None,
        }
    }
}

/// Removes surrounding double quotes.
fn unquote_str(v: &str) -> (r: String)
    ensures
        r@ == unquote(v@),
{
    let n = v.unicode_len();
    if n > 0 && v.get_char(0) == '"' {
        if n >= 2 {
            v.substring_char(1, n - 1).to_owned()
        } else {
            String::new()
        }
    } else {
        v.to_owned()
    }
}

/// Splits a line into key and value.
fn parse_line(line: &str) -> (r: Option<(String, String)>)
    ensures
        match line_entry(line@) {
            Some((k, v)) => r is Some && r->Some_0.0@ == k && r->Some_0.1@ == v,
            None => r is None,
        },
{
    let n = line.unicode_len();
    let e = find_char(line, '=');
    if e >= n {
        return None;
    }
    let rest = line.substring_char(e + 1, n);
    let v_end = find_char(rest, '=');
    let value = unquote_str(rest.substring_char(0, v_end));
    Some((line.substring_char(0, e).to_owned(), value))
}

/// Value of `key` in the text of an os-release file.
pub fn os_release_value(text: &str, key: &str) -> (r: Option<String>)
    ensures
        match os_release_lookup(text@, key@) {
            Some(v) => r is Some && r->Some_0@ == v,
            None => r is None,
        },
    decreases text@.len(),
{
    let n = text.unicode_len();
    let i = find_char(text, '\n');
    if i < n {
        let later = os_release_value(text.substring_char(i + 1, n), key);
        if later.is_some() {
            return later;
        }
    }
    match parse_line(text.substring_char(0, i)) {
        Some((k, v)) => {
            if k == key.to_owned() {
                Some(v)
            } else {
                None
            }
        },
        None => None,
    }
}

/// What a devkit reports of its system.
pub struct Status {
    pub id: String,
    pub name: String,
    pub pretty_name: String,
    pub build_id: String,
    pub variant_id: String,
    pub version_id: String,
    pub version_codename: String,
}

/// Reads one key that must be there; its absence gives the key's name.
fn required_value(text: &str, key: &str) -> (r: Result<String, String>)
    ensures
        match os_release_lookup(text@, key@) {
            Some(v) => r is Ok && r->Ok_0@ == v,
            None => r is Err && r->Err_0@ == key@,
        },
{
    match os_release_value(text, key) {
        Some(v) => Ok(v),
        None => Err(key.to_owned()),
    }
}

/// Builds the status report from the text of an os-release file. Fails with
/// the name of the first of the keys ID, NAME, PRETTY_NAME, BUILD_ID,
/// VARIANT_ID, VERSION_ID, VERSION_CODENAME that the text lacks.
pub fn status_from_os_release(text: &str) -> (r: Result<Status, String>)
    ensures
        r is Ok <==> (os_release_lookup(text@, "ID"@) is Some && os_release_lookup(text@, "NAME"@) is Some
            && os_release_lookup(text@, "PRETTY_NAME"@) is Some && os_release_lookup(text@, "BUILD_ID"@) is Some
            && os_release_lookup(text@, "VARIANT_ID"@) is Some && os_release_lookup(text@, "VERSION_ID"@) is Some
            && os_release_lookup(text@, "VERSION_CODENAME"@) is Some),
        r is Ok ==> ({
            let s = r->Ok_0;
            &&& Some(s.id@) == os_release_lookup(text@, "ID"@)
            &&& Some(s.name@) == os_release_lookup(text@, "NAME"@)
            &&& Some(s.pretty_name@) == os_release_lookup(text@, "PRETTY_NAME"@)
            &&& Some(s.build_id@) == os_release_lookup(text@, "BUILD_ID"@)
            &&& Some(s.variant_id@) == os_release_lookup(text@, "VARIANT_ID"@)
            &&& Some(s.version_id@) == os_release_lookup(text@, "VERSION_ID"@)
            &&& Some(s.version_codename@) == os_release_lookup(text@, "VERSION_CODENAME"@)
        }),
        r is Err ==> os_release_lookup(text@, r->Err_0@) is None,
{
    let id = required_value(text, "ID")?;
    let name = required_value(text, "NAME")?;
    let pretty_name = required_value(text, "PRETTY_NAME")?;
    let build_id = required_value(text, "BUILD_ID")?;
    let variant_id = required_value(text, "VARIANT_ID")?;
    let version_id = required_value(text, "VERSION_ID")?;
    let version_codename = required_value(text, "VERSION_CODENAME")?;
    Ok(Status { id, name, pretty_name, build_id, variant_id, version_id, version_codename })
}

} // verus!
