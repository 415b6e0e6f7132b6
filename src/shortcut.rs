//! Shortcut records: their identifier, their field template, and how a
//! record is merged into the tree of a shortcut file.
//!
//! The root object holds the collection under [`COLLECTION_KEY`]; the
//! collection's fields are records keyed by decimal numbers.

use vstd::prelude::*;
use vstd::string::StringExecFns;
use vstd::utf8::*;
use crate::vdf::{
    decode, encode_object, key_index, key_index_from, parse, Error, lemma_fields_model, lemma_key_index_from, lemma_fields_model_update, value_model, with_field, Object,
    ObjectModel, Value, ValueModel,
};

verus! {

broadcast use vstd::seq::group_seq_axioms, group_utf8_lib;

/// Name of the collection inside the root object.
pub const COLLECTION_KEY: &'static str = "Shortcuts";

/// Bit that every shortcut identifier has set.
pub const ID_FLAG: u32 = 0x8000_0000;

/// Last-play timestamp that a new record starts with.
pub const DEFAULT_LAST_PLAY_TIME: u32 = 1663261394;

/// CRC-32 (the reflected ISO-HDLC variant of zlib and PNG) of a byte
/// sequence.
pub uninterp spec fn crc32_iso_hdlc(bytes: Seq<u8>) -> u32;

/// Relies on `crc::Crc::<u32>::checksum` with `crc::CRC_32_ISO_HDLC`: the
/// checksum of the bytes, which depends on them alone.
#[verifier::external_body]
fn crc32(bytes: &[u8]) -> (r: u32)
    ensures
        r == crc32_iso_hdlc(bytes@),
{
    crc::Crc::<u32>::new(&crc::CRC_32_ISO_HDLC).checksum(bytes)
}

/// Identifier of the shortcut that runs `exe` under the name `app_name`:
/// the checksum of the UTF-8 bytes of the two, concatenated, with the top
/// bit set.
pub open spec fn shortcut_id(exe: Seq<char>, app_name: Seq<char>) -> u32 {
    crc32_iso_hdlc(encode_utf8(exe + app_name)) | ID_FLAG
}

/// Computes the identifier of a shortcut.
pub fn gen_id(exe: &String, app_name: &String) -> (r: u32)
    ensures
        r == shortcut_id(exe@, app_name@),
        r & ID_FLAG != 0,
{
    let key = exe.clone().concat(app_name.as_str());
    let c = crc32(key.as_str().as_bytes());
    let r = c | ID_FLAG;
    assert(r & 0x8000_0000 != 0) by (bit_vector)
        requires
            r == c | 0x8000_0000,
    ;
    r
}

/// The identifier depends only on the concatenation of path and name, so
/// repeated computations on the same pair agree; and its top bit is set.
pub proof fn lemma_identifier(exe1: Seq<char>, name1: Seq<char>, exe2: Seq<char>, name2: Seq<char>)
    requires
        exe1 + name1 == exe2 + name2,
    ensures
        shortcut_id(exe1, name1) == shortcut_id(exe2, name2),
        shortcut_id(exe1, name1) & ID_FLAG != 0,
{
    let c = crc32_iso_hdlc(encode_utf8(exe1 + name1));
    assert((c | 0x8000_0000) & 0x8000_0000 != 0) by (bit_vector);
}

/// An ASCII decimal digit.
pub open spec fn is_digit(c: char) -> bool {
    '0' <= c <= '9'
}

/// Value of a string of decimal digits.
pub open spec fn digits_value(s: Seq<char>) -> nat
    decreases s.len(),
{
    if s.len() == 0 {
        0
    } else {
        digits_value(s.drop_last()) * 10 + (s.last() as int - '0' as int) as nat
    }
}

/// The number a record key stands for: a non-empty string of decimal
/// digits whose value fits in 32 bits. Other keys stand for none.
pub open spec fn key_number(k: Seq<char>) -> Option<u32> {
    if k.len() > 0 && (forall|i: int| 0 <= i < k.len() ==> is_digit(#[trigger] k[i]))
        && digits_value(k) <= u32::MAX {
        Some(digits_value(k) as u32)
    } else {
        None
    }
}

/// The character of a digit value.
pub open spec fn digit_char(d: nat) -> char {
    ((d + 48) as u8) as char
}

/// Decimal form of `n`, without leading zeros.
pub open spec fn decimal(n: nat) -> Seq<char>
    decreases n,
{
    if n < 10 {
        seq![digit_char(n)]
    } else {
        decimal(n / 10).push(digit_char(n % 10))
    }
}

/// A prefix of a digit string is worth no more than the whole.
proof fn lemma_digits_value_prefix(s: Seq<char>, i: int)
    requires
        0 <= i <= s.len(),
        forall|j: int| 0 <= j < s.len() ==> is_digit(#[trigger] s[j]),
    ensures
        digits_value(s.subrange(0, i)) <= digits_value(s),
    decreases s.len() - i,
{
    if i < s.len() {
        lemma_digits_value_prefix(s, i + 1);
        let p = s.subrange(0, i + 1);
        assert(p.drop_last() =~= s.subrange(0, i));
        assert(is_digit(p.last()));
    } else {
        assert(s.subrange(0, i) =~= s);
    }
}

/// Reads a record key as a number.
pub fn parse_index(k: &String) -> (r: Option<u32>)
    ensures
        r == key_number(k@),
{
    let s = k.as_str();
    let n = s.unicode_len();
    if n == 0 {
        return None;
    }
    let mut acc: u64 = 0;
    let mut i: usize = 0;
    while i < n
        invariant
            n == s@.len(),
            s@ == k@,
            i <= n,
            forall|j: int| 0 <= j < i ==> is_digit(#[trigger] s@[j]),
            acc == digits_value(s@.subrange(0, i as int)),
            acc <= u32::MAX,
        decreases n - i,
    {
        let c = s.get_char(i);
        let u = c as u32;
        if u < 48 || u > 57 {
            assert(!is_digit(s@[i as int]));
            return None;
        }
        proof {
            let p = s@.subrange(0, i + 1);
            assert(p.drop_last() =~= s@.subrange(0, i as int));
        }
        acc = acc * 10 + (u - 48) as u64;
        i = i + 1;
        if acc > 0xffff_ffff {
            proof {
                if forall|j: int| 0 <= j < s@.len() ==> is_digit(#[trigger] s@[j]) {
                    lemma_digits_value_prefix(s@, i as int);
                }
            }
            return None;
        }
    }
    assert(s@.subrange(0, i as int) =~= s@);
    Some(acc as u32)
}

/// The byte of each ASCII character.
pub open spec fn ascii_bytes(cs: Seq<char>) -> Seq<u8> {
    cs.map_values(|c: char| c as u8)
}

/// Appends the decimal digits of `n`.
fn push_decimal(buf: &mut Vec<u8>, n: u64)
    ensures
        final(buf)@ == old(buf)@ + ascii_bytes(decimal(n as nat)),
    decreases n,
{
    if n >= 10 {
        push_decimal(buf, n / 10);
    }
    let d = (n % 10) as u8;
    buf.push(d + 48);
    proof {
        if n >= 10 {
            assert(decimal(n as nat) == decimal((n / 10) as nat).push(digit_char((n % 10) as nat)));
        }
        assert(final(buf)@ =~= old(buf)@ + ascii_bytes(decimal(n as nat)));
    }
}

/// Every character of a decimal form is an ASCII digit.
proof fn lemma_decimal_digits(n: nat)
    ensures
        forall|i: int| 0 <= i < decimal(n).len() ==> is_digit(#[trigger] decimal(n)[i]),
        is_ascii_chars(decimal(n)),
    decreases n,
{
    if n >= 10 {
        lemma_decimal_digits(n / 10);
    }
}

/// Decimal form of `n` as a string.
pub fn decimal_string(n: u64) -> (r: String)
    ensures
        r@ == decimal(n as nat),
{
    let mut buf: Vec<u8> = Vec::new();
    push_decimal(&mut buf, n);
    let ghost cs = decimal(n as nat);
    proof {
        lemma_decimal_digits(n as nat);
        is_ascii_chars_encode_utf8(cs);
        assert(buf@ =~= encode_utf8(cs));
    }
    match crate::vdf::string_from_utf8(buf) {
        Ok(s) => s,
        Err(_) => {
            proof {
                assert(false);
            }
            String::new()
        },
    }
}

/// The fields of a new record, in order.
pub open spec fn shortcut_record(
    id: u32,
    game_id: Seq<char>,
    app_name: Seq<char>,
    exec: Seq<char>,
    start_dir: Seq<char>,
) -> ObjectModel {
    seq![
        ("appid"@, ValueModel::Integer(id)),
        ("AppName"@, ValueModel::String(app_name)),
        ("Exe"@, ValueModel::String(exec)),
        ("StartDir"@, ValueModel::String(start_dir)),
        ("icon"@, ValueModel::String(Seq::empty())),
        ("ShortcutPath"@, ValueModel::String(Seq::empty())),
        ("LaunchOptions"@, ValueModel::String(Seq::empty())),
        ("IsHidden"@, ValueModel::Integer(0)),
        ("AllowDesktopConfig"@, ValueModel::Integer(1)),
        ("AllowOverlay"@, ValueModel::Integer(1)),
        ("OpenVR"@, ValueModel::Integer(0)),
        ("Devkit"@, ValueModel::Integer(1)),
        ("DevkitGameID"@, ValueModel::String(game_id)),
        ("DevkitOverrideAppID"@, ValueModel::Integer(0)),
        ("LastPlayTime"@, ValueModel::Integer(DEFAULT_LAST_PLAY_TIME)),
        ("FlatpakAppID"@, ValueModel::String(Seq::empty())),
        ("tags"@, ValueModel::Object(Seq::empty())),
    ]
}

/// Builds a new record from the template.
pub fn create_shortcut_obj(
    id: u32,
    game_id: String,
    app_name: String,
    exec: String,
    starting_dir: String,
) -> (r: Object)
    ensures
        r@ == shortcut_record(id, game_id@, app_name@, exec@, starting_dir@),
{
    let ghost (g, a, e, d) = (game_id@, app_name@, exec@, starting_dir@);
    let mut obj = Object::new();
    obj.set_value("appid".to_owned(), Value::Integer(id));
    obj.set_value("AppName".to_owned(), Value::String(app_name));
    obj.set_value("Exe".to_owned(), Value::String(exec));
    obj.set_value("StartDir".to_owned(), Value::String(starting_dir));
    obj.set_value("icon".to_owned(), Value::String(String::new()));
    obj.set_value("ShortcutPath".to_owned(), Value::String(String::new()));
    obj.set_value("LaunchOptions".to_owned(), Value::String(String::new()));
    obj.set_value("IsHidden".to_owned(), Value::Integer(0));
    obj.set_value("AllowDesktopConfig".to_owned(), Value::Integer(1));
    obj.set_value("AllowOverlay".to_owned(), Value::Integer(1));
    obj.set_value("OpenVR".to_owned(), Value::Integer(0));
    obj.set_value("Devkit".to_owned(), Value::Integer(1));
    obj.set_value("DevkitGameID".to_owned(), Value::String(game_id));
    obj.set_value("DevkitOverrideAppID".to_owned(), Value::Integer(0));
    obj.set_value("LastPlayTime".to_owned(), Value::Integer(DEFAULT_LAST_PLAY_TIME));
    obj.set_value("FlatpakAppID".to_owned(), Value::String(String::new()));
    obj.set_value("tags".to_owned(), Value::Object(Object::new()));
    assert(obj@ =~= shortcut_record(id, g, a, e, d));
    obj
}

/// Identifier of a record: the integer held by its first `appid` field.
/// A value that is no object, or has no such integer, has none; such
/// records are passed over when records are matched.
pub open spec fn record_id(v: ValueModel) -> Option<u32> {
    match v {
        ValueModel::Object(fs) => {
            let k = key_index(fs, "appid"@);
            if k >= 0 {
                match fs[k].1 {
                    ValueModel::Integer(x) => Some(x),
                    _ => None,
                }
            } else {
                None
            }
        },
        _ => None,
    }
}

/// Index of the first record from `i` on whose identifier is `id`, or -1.
pub open spec fn match_index_from(coll: ObjectModel, id: u32, i: int) -> int
    decreases coll.len() - i,
{
    if i < 0 || i >= coll.len() {
        -1
    } else if record_id(coll[i].1) == Some(id) {
        i
    } else {
        match_index_from(coll, id, i + 1)
    }
}

/// The index found from `i` on is a record with that identifier, and no
/// record before it from `i` on has it.
pub proof fn lemma_match_index_from(coll: ObjectModel, id: u32, i: int)
    requires
        0 <= i,
    ensures
        match_index_from(coll, id, i) == -1 || (i <= match_index_from(coll, id, i) < coll.len()
            && record_id(coll[match_index_from(coll, id, i)].1) == Some(id)),
        match_index_from(coll, id, i) == -1 ==> forall|j: int| i <= j < coll.len() ==> record_id(#[trigger] coll[j].1) != Some(id),
        forall|j: int| i <= j < match_index_from(coll, id, i) ==> record_id(#[trigger] coll[j].1) != Some(id),
    decreases coll.len() - i,
{
    if i < coll.len() && record_id(coll[i].1) != Some(id) {
        lemma_match_index_from(coll, id, i + 1);
    }
}

/// Index of the first record whose identifier is `id`, or -1.
pub open spec fn match_index(coll: ObjectModel, id: u32) -> int {
    match_index_from(coll, id, 0)
}

/// One more than the largest number among the keys, or 0 when no key is a
/// number.
pub open spec fn next_index(coll: ObjectModel) -> nat
    decreases coll.len(),
{
    if coll.len() == 0 {
        0
    } else {
        let rest = next_index(coll.drop_last());
        match key_number(coll.last().0) {
            Some(k) => if k + 1 > rest {
                (k + 1) as nat
            } else {
                rest
            },
            None => rest,
        }
    }
}

/// A record with new name, executable and start directory; its other
/// fields stay as they were.
pub open spec fn updated_record(
    fs: ObjectModel,
    app_name: Seq<char>,
    exec: Seq<char>,
    start_dir: Seq<char>,
) -> ObjectModel {
    with_field(
        with_field(with_field(fs, "AppName"@, ValueModel::String(app_name)), "Exe"@, ValueModel::String(exec)),
        "StartDir"@,
        ValueModel::String(start_dir),
    )
}

/// The collection after the merge: the first record with identifier `id`
/// updated in place, or else a new record appended under the next free
/// number.
pub open spec fn merged_collection(
    coll: ObjectModel,
    id: u32,
    game_id: Seq<char>,
    app_name: Seq<char>,
    exec: Seq<char>,
    start_dir: Seq<char>,
) -> ObjectModel {
    let i = match_index(coll, id);
    if i >= 0 {
        coll.update(
            i,
            (coll[i].0, ValueModel::Object(updated_record(coll[i].1->Object_0, app_name, exec, start_dir))),
        )
    } else {
        coll.push(
            (decimal(next_index(coll)), ValueModel::Object(shortcut_record(id, game_id, app_name, exec, start_dir))),
        )
    }
}

/// The root after the merge. A missing collection is created empty first
/// and appended; a collection field that is no object is left alone.
pub open spec fn merged_root(
    root: ObjectModel,
    id: u32,
    game_id: Seq<char>,
    app_name: Seq<char>,
    exec: Seq<char>,
    start_dir: Seq<char>,
) -> ObjectModel {
    let k = key_index(root, COLLECTION_KEY@);
    if k < 0 {
        root.push(
            (COLLECTION_KEY@, ValueModel::Object(merged_collection(Seq::empty(), id, game_id, app_name, exec, start_dir))),
        )
    } else {
        match root[k].1 {
            ValueModel::Object(c) => root.update(
                k,
                (COLLECTION_KEY@, ValueModel::Object(merged_collection(c, id, game_id, app_name, exec, start_dir))),
            ),
            _ => root,
        }
    }
}

/// What a merge did.
#[derive(Debug, Clone, Copy, PartialEq, Eq, Structural)]
pub enum MergeOutcome {
    /// A record with the identifier existed and was updated.
    Updated,
    /// A new record was appended.
    Inserted,
    /// The collection field holds no object; nothing was changed.
    CollectionNotAnObject,
}

/// What a merge into a collection does.
pub open spec fn collection_outcome(coll: ObjectModel, id: u32) -> MergeOutcome {
    if match_index(coll, id) >= 0 {
        MergeOutcome::Updated
    } else {
        MergeOutcome::Inserted
    }
}

/// What a merge into a root does.
pub open spec fn merge_outcome(root: ObjectModel, id: u32) -> MergeOutcome {
    let k = key_index(root, COLLECTION_KEY@);
    if k < 0 {
        MergeOutcome::Inserted
    } else {
        match root[k].1 {
            ValueModel::Object(c) => collection_outcome(c, id),
            _ => MergeOutcome::CollectionNotAnObject,
        }
    }
}

/// Reads the identifier of a record.
fn record_id_of(v: &Value) -> (r: Option<u32>)
    ensures
        r == record_id(v@),
{
    match v {
        Value::Object(o) => match o.value("appid") {
            Some(Value::Integer(x)) => Some(*x),
            _ => None,
        },
        _ => None,
    }
}

/// Finds the first record with identifier `id`.
fn find_record(coll: &Object, id: u32) -> (r: Option<usize>)
    ensures
        match r {
            Some(i) => i as int == match_index(coll@, id),
            None => match_index(coll@, id) == -1,
        },
{
    proof {
        lemma_fields_model(coll.values@);
    }
    let mut i: usize = 0;
    while i < coll.values.len()
        invariant
            i <= coll.values@.len(),
            coll@.len() == coll.values@.len(),
            forall|j: int| 0 <= j < coll.values@.len() ==> #[trigger] coll@[j] == (
                coll.values@[j].0@,
                value_model(coll.values@[j].1),
            ),
            match_index(coll@, id) == match_index_from(coll@, id, i as int),
        decreases coll.values@.len() - i,
    {
        if record_id_of(&coll.values[i].1) == Some(id) {
            return Some(i);
        }
        i = i + 1;
    }
    None
}

/// Computes the key for a new record.
fn next_index_of(coll: &Object) -> (r: u64)
    ensures
        r == next_index(coll@),
{
    proof {
        lemma_fields_model(coll.values@);
    }
    let mut acc: u64 = 0;
    let mut i: usize = 0;
    while i < coll.values.len()
        invariant
            i <= coll.values@.len(),
            coll@.len() == coll.values@.len(),
            forall|j: int| 0 <= j < coll.values@.len() ==> #[trigger] coll@[j] == (
                coll.values@[j].0@,
                value_model(coll.values@[j].1),
            ),
            acc == next_index(coll@.subrange(0, i as int)),
            acc <= 0x1_0000_0000,
        decreases coll.values@.len() - i,
    {
        let k = parse_index(&coll.values[i].0);
        proof {
            assert(coll@.subrange(0, i + 1).drop_last() =~= coll@.subrange(0, i as int));
        }
        match k {
            Some(x) => {
                if x as u64 + 1 > acc {
                    acc = x as u64 + 1;
                }
            },
            None => {},
        }
        i = i + 1;
    }
    assert(coll@.subrange(0, i as int) =~= coll@);
    acc
}

/// Gives a record a new name, executable and start directory.
pub fn update_record(rec: &mut Object, app_name: &String, exec: &String, starting_dir: &String)
    ensures
        final(rec)@ == updated_record(old(rec)@, app_name@, exec@, starting_dir@),
{
    rec.replace_or_append("AppName".to_owned(), Value::String(app_name.clone()));
    rec.replace_or_append("Exe".to_owned(), Value::String(exec.clone()));
    rec.replace_or_append("StartDir".to_owned(), Value::String(starting_dir.clone()));
}

/// Merges a record into a collection.
pub fn merge_into_collection(
    coll: &mut Object,
    id: u32,
    game_id: &String,
    app_name: &String,
    exec: &String,
    starting_dir: &String,
) -> (r: MergeOutcome)
    ensures
        final(coll)@ == merged_collection(old(coll)@, id, game_id@, app_name@, exec@, starting_dir@),
        r == collection_outcome(old(coll)@, id),
{
    match find_record(coll, id) {
        Some(i) => {
            proof {
                lemma_fields_model(coll.values@);
                lemma_match_index_from(coll@, id, 0);
                lemma_fields_model_update(coll.values@, i as int);
            }
            let slot = &mut coll.values[i].1;
            match slot {
                Value::Object(rec) => update_record(rec, app_name, exec, starting_dir),
                _ => {},
            }
            MergeOutcome::Updated
        },
        None => {
            let n = next_index_of(coll);
            let key = decimal_string(n);
            let rec = create_shortcut_obj(id, game_id.clone(), app_name.clone(), exec.clone(), starting_dir.clone());
            coll.set_value(key, Value::Object(rec));
            MergeOutcome::Inserted
        },
    }
}

/// Merges a shortcut record with identifier `id` into the root of a
/// shortcut file.
pub fn merge_shortcut(
    root: &mut Object,
    id: u32,
    game_id: &String,
    app_name: &String,
    exec: &String,
    starting_dir: &String,
) -> (r: MergeOutcome)
    ensures
        final(root)@ == merged_root(old(root)@, id, game_id@, app_name@, exec@, starting_dir@),
        r == merge_outcome(old(root)@, id),
{
    let key = COLLECTION_KEY.to_owned();
    match root.find(&key) {
        Some(k) => {
            proof {
                lemma_fields_model(root.values@);
                lemma_key_index_from(root@, key@, 0);
                lemma_fields_model_update(root.values@, k as int);
            }
            if let Value::Object(_) = &root.values[k].1 {
            } else {
                return MergeOutcome::CollectionNotAnObject;
            }
            let slot = &mut root.values[k].1;
            match slot {
                Value::Object(coll) => merge_into_collection(coll, id, game_id, app_name, exec, starting_dir),
                _ => MergeOutcome::CollectionNotAnObject,
            }
        },
        None => {
            let mut coll = Object::new();
            let r = merge_into_collection(&mut coll, id, game_id, app_name, exec, starting_dir);
            root.set_value(key, Value::Object(coll));
            r
        },
    }
}

/// Display name of the shortcut of a game.
pub open spec fn app_name_for(game_id: Seq<char>) -> Seq<char> {
    "Decker: "@ + game_id
}

/// Builds the display name of the shortcut of a game.
pub fn shortcut_app_name(game_id: &String) -> (r: String)
    ensures
        r@ == app_name_for(game_id@),
{
    "Decker: ".to_owned().concat(game_id.as_str())
}

/// Adds the shortcut of a game, or updates it when one with the same
/// identifier is there.
pub fn create_shortcut(root: &mut Object, game_id: &String, exec: &String, starting_dir: &String) -> (r: MergeOutcome)
    ensures
        final(root)@ == merged_root(
            old(root)@,
            shortcut_id(exec@, app_name_for(game_id@)),
            game_id@,
            app_name_for(game_id@),
            exec@,
            starting_dir@,
        ),
        r == merge_outcome(old(root)@, shortcut_id(exec@, app_name_for(game_id@))),
{
    let app_name = shortcut_app_name(game_id);
    let id = gen_id(exec, &app_name);
    merge_shortcut(root, id, game_id, &app_name, exec, starting_dir)
}

/// Decodes the bytes of a shortcut file, merges the shortcut of a game into
/// it, and encodes the result as the file's new content.
pub fn update_shortcut_file(data: &[u8], game_id: &String, exec: &String, starting_dir: &String) -> (r: Result<(Vec<u8>, MergeOutcome), Error>)
    ensures
        match decode(data@) {
            Ok(fs) => r is Ok && r->Ok_0.0@ == encode_object(
                merged_root(
                    fs,
                    shortcut_id(exec@, app_name_for(game_id@)),
                    game_id@,
                    app_name_for(game_id@),
                    exec@,
                    starting_dir@,
                ),
            ) && r->Ok_0.1 == merge_outcome(fs, shortcut_id(exec@, app_name_for(game_id@))),
            Err(e) => r == Err::<(Vec<u8>, MergeOutcome), Error>(e),
        },
{
    let mut root = match parse(data) {
        Ok(o) => o,
        Err(e) => return Err(e),
    };
    let outcome = create_shortcut(&mut root, game_id, exec, starting_dir);
    Ok((crate::vdf::write(&root), outcome))
}

/// Merging into a root that has no collection appends a collection that
/// holds the new record alone, under the key "0".
pub proof fn lemma_bootstrap(
    root: ObjectModel,
    id: u32,
    game_id: Seq<char>,
    app_name: Seq<char>,
    exec: Seq<char>,
    start_dir: Seq<char>,
)
    requires
        key_index(root, COLLECTION_KEY@) == -1,
    ensures
        merged_root(root, id, game_id, app_name, exec, start_dir) == root.push(
            (
                COLLECTION_KEY@,
                ValueModel::Object(
                    seq![(seq!['0'], ValueModel::Object(shortcut_record(id, game_id, app_name, exec, start_dir)))],
                ),
            ),
        ),
        merge_outcome(root, id) == MergeOutcome::Inserted,
{
    let empty = Seq::<(Seq<char>, ValueModel)>::empty();
    assert(match_index(empty, id) == -1);
    assert(next_index(empty) == 0);
    assert(decimal(0) =~= seq!['0']);
    assert(merged_collection(empty, id, game_id, app_name, exec, start_dir) =~= seq![
        (seq!['0'], ValueModel::Object(shortcut_record(id, game_id, app_name, exec, start_dir))),
    ]);
}

/// Merging a second time with the same identifier into what a first merge
/// made of an empty root leaves one record, under the same key "0", whose
/// name, executable and start directory are those of the second merge.
pub proof fn lemma_update_idempotent(
    id: u32,
    game_id1: Seq<char>,
    app_name1: Seq<char>,
    exec1: Seq<char>,
    start_dir1: Seq<char>,
    game_id2: Seq<char>,
    app_name2: Seq<char>,
    exec2: Seq<char>,
    start_dir2: Seq<char>,
)
    ensures
        ({
            let first = merged_root(Seq::empty(), id, game_id1, app_name1, exec1, start_dir1);
            &&& first == seq![
                (
                    COLLECTION_KEY@,
                    ValueModel::Object(
                        seq![(seq!['0'], ValueModel::Object(shortcut_record(id, game_id1, app_name1, exec1, start_dir1)))],
                    ),
                ),
            ]
            &&& merge_outcome(first, id) == MergeOutcome::Updated
            &&& merged_root(first, id, game_id2, app_name2, exec2, start_dir2) == seq![
                (
                    COLLECTION_KEY@,
                    ValueModel::Object(
                        seq![(seq!['0'], ValueModel::Object(shortcut_record(id, game_id1, app_name2, exec2, start_dir2)))],
                    ),
                ),
            ]
        }),
{
    reveal_strlit("appid");
    reveal_strlit("AppName");
    reveal_strlit("Exe");
    reveal_strlit("StartDir");
    assert("appid"@.len() == 5);
    assert("AppName"@.len() == 7);
    assert("Exe"@.len() == 3);
    assert("StartDir"@.len() == 8);
    let empty = Seq::<(Seq<char>, ValueModel)>::empty();
    lemma_bootstrap(empty, id, game_id1, app_name1, exec1, start_dir1);
    assert(empty.push((COLLECTION_KEY@, ValueModel::Object(seq![(seq!['0'], ValueModel::Object(shortcut_record(id, game_id1, app_name1, exec1, start_dir1)))]))) =~= seq![
        (COLLECTION_KEY@, ValueModel::Object(seq![(seq!['0'], ValueModel::Object(shortcut_record(id, game_id1, app_name1, exec1, start_dir1)))])),
    ]);
    let first = merged_root(empty, id, game_id1, app_name1, exec1, start_dir1);
    let rec1 = shortcut_record(id, game_id1, app_name1, exec1, start_dir1);
    let c1 = seq![(seq!['0'], ValueModel::Object(rec1))];
    assert(key_index(first, COLLECTION_KEY@) == 0);
    assert(key_index(rec1, "appid"@) == 0);
    assert(record_id(ValueModel::Object(rec1)) == Some(id));
    assert(match_index(c1, id) == 0);
    let u1 = with_field(rec1, "AppName"@, ValueModel::String(app_name2));
    assert(key_index_from(rec1, "AppName"@, 1) == 1);
    assert(key_index(rec1, "AppName"@) == 1);
    assert(u1 == rec1.update(1, ("AppName"@, ValueModel::String(app_name2))));
    let u2 = with_field(u1, "Exe"@, ValueModel::String(exec2));
    assert(key_index_from(u1, "Exe"@, 2) == 2);
    assert(key_index_from(u1, "Exe"@, 1) == 2);
    assert(key_index(u1, "Exe"@) == 2);
    let u3 = with_field(u2, "StartDir"@, ValueModel::String(start_dir2));
    assert(key_index_from(u2, "StartDir"@, 3) == 3);
    assert(key_index_from(u2, "StartDir"@, 2) == 3);
    assert(key_index_from(u2, "StartDir"@, 1) == 3);
    assert(key_index(u2, "StartDir"@) == 3);
    assert(u3 =~= shortcut_record(id, game_id1, app_name2, exec2, start_dir2));
    assert(merged_collection(c1, id, game_id2, app_name2, exec2, start_dir2) =~= seq![
        (seq!['0'], ValueModel::Object(shortcut_record(id, game_id1, app_name2, exec2, start_dir2))),
    ]);
    assert(merged_root(first, id, game_id2, app_name2, exec2, start_dir2) =~= seq![
        (
            COLLECTION_KEY@,
            ValueModel::Object(
                seq![(seq!['0'], ValueModel::Object(shortcut_record(id, game_id1, app_name2, exec2, start_dir2)))],
            ),
        ),
    ]);
}

} // verus!
