//! The database: a directory of boxes, and the names of the files of each box.
use vstd::prelude::*;

verus! {

/// The database at a directory.
pub struct GuiXu {
    pub path: String,
}

impl GuiXu {
    /// The database at the directory `path`.
    pub fn new(path: String) -> (r: GuiXu)
        ensures
            r.path@ == path@,
    {
        GuiXu { path }
    }

    /// The directory of the database.
    pub fn path(&self) -> (r: &str)
        ensures
            r@ == self.path@,
    {
        self.path.as_str()
    }
}

/// Whether a type name may keep `c` in a box name.
pub open spec fn is_name_char(c: char) -> bool {
    ('A' <= c <= 'Z') || ('a' <= c <= 'z') || ('0' <= c <= '9') || c == '_' || c == '-' || c == '.'
}

/// A box name made of a type name: every character that is not a letter, a digit, `_`,
/// `-` or `.` becomes `_`.
pub open spec fn spec_sanitize_type_name(name: Seq<char>) -> Seq<char> {
    name.map_values(|c: char| if is_name_char(c) { c } else { '_' })
}

/// Calls `String::push`, which appends one character.
#[verifier::external_body]
fn string_push(s: &mut String, c: char)
    ensures
        final(s)@ == old(s)@.push(c),
{
    s.push(c)
}

/// The box name made of the type name `name`.
pub fn sanitize_type_name(name: &str) -> (r: String)
    ensures
        r@ == spec_sanitize_type_name(name@),
{
    let n = name.unicode_len();
    let mut out = String::new();
    let mut i: usize = 0;
    while i < n
        invariant
            n == name@.len(),
            i <= n,
            out@ == spec_sanitize_type_name(name@.subrange(0, i as int)),
        decreases n - i,
    {
        let c = name.get_char(i);
        let keep = ('A' <= c && c <= 'Z') || ('a' <= c && c <= 'z') || ('0' <= c && c <= '9') || c == '_'
            || c == '-' || c == '.';
        string_push(&mut out, if keep { c } else { '_' });
        proof {
            assert(name@.subrange(0, i + 1) =~= name@.subrange(0, i as int).push(c));
        }
        i = i + 1;
        assert(out@ =~= spec_sanitize_type_name(name@.subrange(0, i as int)));
    }
    assert(name@.subrange(0, n as int) =~= name@);
    out
}

/// The character of the generation number `num`.
pub open spec fn generation_char(num: usize) -> char {
    if num == 0 {
        '0'
    } else if num == 1 {
        '1'
    } else {
        '2'
    }
}

/// The text of the generation number `num`, one of 0, 1 and 2.
fn generation_text(num: usize) -> (r: &'static str)
    requires
        num < 3,
    ensures
        r@ == seq![generation_char(num)],
{
    if num == 0 {
        proof {
            reveal_strlit("0");
        }
        "0"
    } else if num == 1 {
        proof {
            reveal_strlit("1");
        }
        "1"
    } else {
        proof {
            reveal_strlit("2");
        }
        "2"
    }
}

/// The name of the index file of generation `num` of the box `name`.
pub fn index_file_name(name: &str, num: usize) -> (r: String)
    requires
        num < 3,
    ensures
        r@ == name@ + "-index-"@ + seq![generation_char(num)],
{
    let mut out = String::from_str(name);
    out.append("-index-");
    out.append(generation_text(num));
    out
}

/// The name of the store file of generation `num` of the box `name`.
pub fn store_file_name(name: &str, num: usize) -> (r: String)
    requires
        num < 3,
    ensures
        r@ == name@ + "-"@ + seq![generation_char(num)],
{
    let mut out = String::from_str(name);
    out.append("-");
    out.append(generation_text(num));
    out
}

/// The name of the store file that a compaction of the box `name` writes first.
pub fn temp_store_file_name(name: &str) -> (r: String)
    ensures
        r@ == name@ + "-temp"@,
{
    let mut out = String::from_str(name);
    out.append("-temp");
    out
}

/// The name of the index file that a compaction of the box `name` writes first.
pub fn temp_index_file_name(name: &str) -> (r: String)
    ensures
        r@ == name@ + "-index-temp"@,
{
    let mut out = String::from_str(name);
    out.append("-index-temp");
    out
}

/// The name of the key map file of the key/value box `name`.
pub fn key_map_file_name(name: &str) -> (r: String)
    ensures
        r@ == name@ + "-K2IdMap"@,
{
    let mut out = String::from_str(name);
    out.append("-K2IdMap");
    out
}

} // verus!
