//! File records and the filename rules: extension stripping, copy-suffix
//! normalization, and the duplicate-name filters.

use vstd::prelude::*;

verus! {

/// True when the name ends in " 2", " 3" or " 4" (an OS copy suffix).
pub open spec fn has_space_digit_suffix(s: Seq<char>) -> bool {
    &&& s.len() >= 2
    &&& s[s.len() - 2] == ' '
    &&& (s[s.len() - 1] == '2' || s[s.len() - 1] == '3' || s[s.len() - 1] == '4')
}

/// True when the name ends in " (1)", " (2)" or " (3)" (an OS copy suffix).
pub open spec fn has_paren_digit_suffix(s: Seq<char>) -> bool {
    &&& s.len() >= 4
    &&& s[s.len() - 4] == ' '
    &&& s[s.len() - 3] == '('
    &&& (s[s.len() - 2] == '1' || s[s.len() - 2] == '2' || s[s.len() - 2] == '3')
    &&& s[s.len() - 1] == ')'
}

/// The name with a trailing copy suffix stripped: two characters for " 2",
/// " 3", " 4"; four characters for " (1)", " (2)", " (3)"; else unchanged.
pub open spec fn undestroyed_name_spec(s: Seq<char>) -> Seq<char> {
    if has_space_digit_suffix(s) {
        s.take(s.len() - 2)
    } else if has_paren_digit_suffix(s) {
        s.take(s.len() - 4)
    } else {
        s
    }
}

/// The normalized name never extends the display name: it is a prefix of it.
pub proof fn lemma_undestroyed_name_is_prefix(s: Seq<char>)
    ensures
        undestroyed_name_spec(s).is_prefix_of(s),
{
}

/// Strips the copy suffix from a file name, if one is present.
pub fn get_undestroyed_name<'a>(name: &'a str) -> (r: &'a str)
    ensures
        r@ == undestroyed_name_spec(name@),
{
    let n = name.unicode_len();
    if n >= 2 && name.get_char(n - 2) == ' ' {
        let last = name.get_char(n - 1);
        if last == '2' || last == '3' || last == '4' {
            return name.substring_char(0, n - 2);
        }
    }
    if n >= 4 && name.get_char(n - 4) == ' ' && name.get_char(n - 3) == '('
        && name.get_char(n - 1) == ')' {
        let d = name.get_char(n - 2);
        if d == '1' || d == '2' || d == '3' {
            return name.substring_char(0, n - 4);
        }
    }
    name
}

/// True when `i` is the position of the last '.' in `s`, and that '.' does
/// not open the name (a leading dot marks a hidden file, not an extension).
pub open spec fn is_stem_cut(s: Seq<char>, i: int) -> bool {
    &&& 1 <= i < s.len()
    &&& s[i] == '.'
    &&& forall|j: int| i < j < s.len() ==> s[j] != '.'
}

/// The file name without its extension: everything before the last '.', or
/// the whole name when there is no '.' past the first character.
pub open spec fn stem_spec(s: Seq<char>) -> Seq<char> {
    if exists|i: int| is_stem_cut(s, i) {
        s.take(choose|i: int| is_stem_cut(s, i))
    } else {
        s
    }
}

/// At most one position can be the last '.' of a name.
proof fn lemma_stem_cut_unique(s: Seq<char>, i: int, j: int)
    requires
        is_stem_cut(s, i),
        is_stem_cut(s, j),
    ensures
        i == j,
{
    if i < j {
        assert(s[j] != '.');
    }
    if j < i {
        assert(s[i] != '.');
    }
}

/// Removes the extension of a file name: cuts at the last '.', unless the
/// only '.' is the leading character.
pub fn strip_extension<'a>(name: &'a str) -> (r: &'a str)
    ensures
        r@ == stem_spec(name@),
{
    let n = name.unicode_len();
    if n <= 1 {
        return name;
    }
    let mut i: usize = n;
    while i > 1
        invariant
            1 <= i <= n,
            n == name@.len(),
            forall|j: int| i <= j < n ==> name@[j] != '.',
        decreases i,
    {
        let c = name.get_char(i - 1);
        if c == '.' {
            proof {
                assert(is_stem_cut(name@, i - 1));
                let k = choose|k: int| is_stem_cut(name@, k);
                lemma_stem_cut_unique(name@, k, i - 1);
            }
            return name.substring_char(0, i - 1);
        }
        i = i - 1;
    }
    assert forall|k: int| !is_stem_cut(name@, k) by {
        if 1 <= k < name@.len() {
            assert(name@[k] != '.');
        }
    }
    name
}

/// One file on disk: its display name (file name without extension), its
/// normalized name (display name with any copy suffix stripped), its full
/// path and its size in bytes.
pub struct FileRecord {
    pub name: String,
    pub name_undup: String,
    pub path: String,
    pub size: u64,
}

/// The mathematical shape of a `FileRecord`: its strings as char sequences.
pub struct FileRecordView {
    pub name: Seq<char>,
    pub name_undup: Seq<char>,
    pub path: Seq<char>,
    pub size: u64,
}

impl View for FileRecord {
    type V = FileRecordView;

    open spec fn view(&self) -> FileRecordView {
        FileRecordView {
            name: self.name@,
            name_undup: self.name_undup@,
            path: self.path@,
            size: self.size,
        }
    }
}

impl FileRecordView {
    /// A record is well formed when its normalized name is exactly the
    /// display name with the copy suffix stripped.
    pub open spec fn wf(self) -> bool {
        self.name_undup == undestroyed_name_spec(self.name)
    }
}

impl Clone for FileRecord {
    fn clone(&self) -> (r: Self)
        ensures
            r == *self,
    {
        FileRecord {
            name: self.name.clone(),
            name_undup: self.name_undup.clone(),
            path: self.path.clone(),
            size: self.size,
        }
    }
}

impl FileRecord {
    /// Builds the record for one file: strips the extension from the raw
    /// file name to get the display name, then strips the copy suffix to get
    /// the normalized name.
    pub fn new(file_name: &str, path: String, size: u64) -> (r: FileRecord)
        ensures
            r@.name == stem_spec(file_name@),
            r@.path == path@,
            r@.size == size,
            r@.wf(),
    {
        let display = strip_extension(file_name);
        let undup = get_undestroyed_name(display);
        FileRecord { name: display.to_owned(), name_undup: undup.to_owned(), path, size }
    }
}

/// Which duplicate names the run accepts, chosen on the command line.
#[derive(Clone, Copy, Debug)]
pub enum Filter {
    /// Ignore duplicates whose display name ends in " 2".
    Notwo,
    /// Keep only duplicates whose display name ends in " 2".
    Onlytwo,
    /// Keep only duplicates whose display name ends in " 2", " 3" or " 4".
    Onlynum,
}

/// True when the name ends in the two characters " 2".
pub open spec fn ends_with_space_two(s: Seq<char>) -> bool {
    &&& s.len() >= 2
    &&& s[s.len() - 2] == ' '
    &&& s[s.len() - 1] == '2'
}

/// Whether the given filter accepts a duplicate with this display name.
pub open spec fn filter_accepts_spec(f: Option<Filter>, name: Seq<char>) -> bool {
    match f {
        None => true,
        Some(Filter::Notwo) => !ends_with_space_two(name),
        Some(Filter::Onlytwo) => ends_with_space_two(name),
        Some(Filter::Onlynum) => has_space_digit_suffix(name),
    }
}

/// True when the name ends in the two characters " 2".
fn ends_space_two(name: &str) -> (r: bool)
    ensures
        r == ends_with_space_two(name@),
{
    let n = name.unicode_len();
    n >= 2 && name.get_char(n - 2) == ' ' && name.get_char(n - 1) == '2'
}

/// True when the name ends in " 2", " 3" or " 4".
fn ends_space_digit(name: &str) -> (r: bool)
    ensures
        r == has_space_digit_suffix(name@),
{
    let n = name.unicode_len();
    if n >= 2 && name.get_char(n - 2) == ' ' {
        let last = name.get_char(n - 1);
        last == '2' || last == '3' || last == '4'
    } else {
        false
    }
}

/// Applies the configured name filter to one display name.
pub fn filter_accepts(f: &Option<Filter>, name: &str) -> (r: bool)
    ensures
        r == filter_accepts_spec(*f, name@),
{
    match f {
        None => true,
        Some(Filter::Notwo) => !ends_space_two(name),
        Some(Filter::Onlytwo) => ends_space_two(name),
        Some(Filter::Onlynum) => ends_space_digit(name),
    }
}

} // verus!
