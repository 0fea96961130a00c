use vstd::prelude::*;
use std::cmp::Ordering;
use crate::paths::{file_stem, push_char, stem_of};

verus! {

/// A named collection: one directory of the games tree.
#[derive(Debug, Clone, PartialEq, Eq)]
pub struct Directory {
    pub name: String,
    pub full_name: String,
    pub path: String,
}

pub struct DirectoryView {
    pub name: Seq<char>,
    pub full_name: Seq<char>,
    pub path: Seq<char>,
}

impl View for Directory {
    type V = DirectoryView;

    open spec fn view(&self) -> DirectoryView {
        DirectoryView { name: self.name@, full_name: self.full_name@, path: self.path@ }
    }
}

impl Directory {
    /// A copy of this descriptor.
    pub fn duplicate(&self) -> (r: Directory)
        ensures
            r@ == self@,
    {
        Directory { name: self.name.clone(), full_name: self.full_name.clone(), path: self.path.clone() }
    }
}

/// Where the games tree is rooted on the device.
pub const GAMES_DIR: &'static str = "/mnt/SDCARD/Roms";

pub open spec fn opens_tag(c: char) -> bool {
    c == '(' || c == '['
}

pub open spec fn closes_tag(c: char) -> bool {
    c == ')' || c == ']'
}

/// How deeply the end of `s` sits inside brackets; a closing bracket with
/// nothing open is ignored.
pub open spec fn tag_depth(s: Seq<char>) -> nat
    decreases s.len(),
{
    if s.len() == 0 {
        0
    } else {
        let d = tag_depth(s.drop_last());
        let c = s.last();
        if opens_tag(c) {
            d + 1
        } else if closes_tag(c) {
            if d > 0 { (d - 1) as nat } else { 0 }
        } else {
            d
        }
    }
}

/// The characters of `s` that stand outside every `(..)` and `[..]` group.
pub open spec fn untagged(s: Seq<char>) -> Seq<char>
    decreases s.len(),
{
    if s.len() == 0 {
        seq![]
    } else {
        let prev = untagged(s.drop_last());
        let c = s.last();
        if !opens_tag(c) && !closes_tag(c) && tag_depth(s.drop_last()) == 0 {
            prev.push(c)
        } else {
            prev
        }
    }
}

pub open spec fn trim_start(s: Seq<char>) -> Seq<char>
    decreases s.len(),
{
    if s.len() > 0 && s[0] == ' ' {
        trim_start(s.drop_first())
    } else {
        s
    }
}

pub open spec fn trim_end(s: Seq<char>) -> Seq<char>
    decreases s.len(),
{
    if s.len() > 0 && s.last() == ' ' {
        trim_end(s.drop_last())
    } else {
        s
    }
}

/// The display label of a full name: the name with its bracketed tags
/// (region, revision, ...) removed and the surrounding spaces trimmed.
pub open spec fn shortened(s: Seq<char>) -> Seq<char> {
    trim_end(trim_start(untagged(s)))
}

/// The descriptor that `Directory::new` builds for a path.
pub open spec fn descriptor_of(path: Seq<char>) -> DirectoryView {
    DirectoryView { name: shortened(stem_of(path)), full_name: stem_of(path), path }
}

/// The descriptor that `Directory::with_name` builds for a path and a label.
pub open spec fn named_descriptor_of(path: Seq<char>, name: Seq<char>) -> DirectoryView {
    DirectoryView { name, full_name: stem_of(path), path }
}

proof fn lemma_trim_start_skip(s: Seq<char>, lo: int)
    requires
        0 <= lo < s.len(),
        s[lo] == ' ',
    ensures
        trim_start(s.subrange(lo, s.len() as int)) == trim_start(s.subrange(lo + 1, s.len() as int)),
{
    assert(s.subrange(lo, s.len() as int).drop_first() =~= s.subrange(lo + 1, s.len() as int));
}

proof fn lemma_trim_end_skip(s: Seq<char>, lo: int, hi: int)
    requires
        0 <= lo < hi <= s.len(),
        s[hi - 1] == ' ',
    ensures
        trim_end(s.subrange(lo, hi)) == trim_end(s.subrange(lo, hi - 1)),
{
    assert(s.subrange(lo, hi).drop_last() =~= s.subrange(lo, hi - 1));
}

/// The display label of `full_name`: bracketed tags removed, spaces trimmed.
pub fn short_name(full_name: &String) -> (r: String)
    ensures
        r@ == shortened(full_name@),
{
    let s: &str = full_name.as_str();
    let n: usize = s.unicode_len();
    let mut kept: Vec<char> = Vec::new();
    let mut depth: usize = 0;
    let mut i: usize = 0;
    while i < n
        invariant
            n == s@.len(),
            s@ == full_name@,
            i <= n,
            depth == tag_depth(s@.subrange(0, i as int)),
            depth <= i,
            kept@ == untagged(s@.subrange(0, i as int)),
        decreases n - i,
    {
        let c = s.get_char(i);
        let ghost before = s@.subrange(0, i as int);
        let ghost after = s@.subrange(0, i + 1);
        assert(after.drop_last() =~= before);
        if c == '(' || c == '[' {
            depth = depth + 1;
        } else if c == ')' || c == ']' {
            if depth > 0 {
                depth = depth - 1;
            }
        } else if depth == 0 {
            kept.push(c);
        }
        i += 1;
    }
    assert(s@.subrange(0, n as int) =~= s@);
    let len: usize = kept.len();
    let mut lo: usize = 0;
    assert(kept@.subrange(0, len as int) =~= kept@);
    while lo < len && kept[lo] == ' '
        invariant
            len == kept@.len(),
            lo <= len,
            trim_start(kept@) == trim_start(kept@.subrange(lo as int, len as int)),
        decreases len - lo,
    {
        proof {
            lemma_trim_start_skip(kept@, lo as int);
        }
        lo += 1;
    }
    let ghost tail = kept@.subrange(lo as int, len as int);
    assert(trim_start(kept@) == tail);
    let mut hi: usize = len;
    while hi > lo && kept[hi - 1] == ' '
        invariant
            len == kept@.len(),
            lo <= hi <= len,
            tail == kept@.subrange(lo as int, len as int),
            trim_end(tail) == trim_end(kept@.subrange(lo as int, hi as int)),
        decreases hi,
    {
        proof {
            lemma_trim_end_skip(kept@, lo as int, hi as int);
        }
        hi -= 1;
    }
    let mut r = String::new();
    let mut j: usize = lo;
    while j < hi
        invariant
            lo <= j <= hi <= len,
            len == kept@.len(),
            r@ == kept@.subrange(lo as int, j as int),
        decreases hi - j,
    {
        push_char(&mut r, kept[j]);
        assert(r@ =~= kept@.subrange(lo as int, j + 1));
        j += 1;
    }
    r
}

impl Directory {
    /// The collection rooted at `path`, labelled by the path's file stem and
    /// shown under that label with its tags removed.
    pub fn new(path: String) -> (r: Directory)
        ensures
            r@ == descriptor_of(path@),
    {
        let full_name = file_stem(&path);
        let name = short_name(&full_name);
        Directory { name, full_name, path }
    }

    /// The collection rooted at `path`, shown under the label `name`.
    pub fn with_name(path: String, name: String) -> (r: Directory)
        ensures
            r@ == named_descriptor_of(path@, name@),
    {
        let full_name = file_stem(&path);
        Directory { name, full_name, path }
    }
}

/// The lexicographic order of two names, by their characters' code points.
pub open spec fn name_order(a: Seq<char>, b: Seq<char>) -> Ordering
    decreases a.len(),
{
    if a.len() == 0 {
        if b.len() == 0 { Ordering::Equal } else { Ordering::Less }
    } else if b.len() == 0 {
        Ordering::Greater
    } else if (a[0] as u32) < (b[0] as u32) {
        Ordering::Less
    } else if (a[0] as u32) > (b[0] as u32) {
        Ordering::Greater
    } else {
        name_order(a.drop_first(), b.drop_first())
    }
}

/// Compares two names lexicographically.
pub fn compare_names(a: &String, b: &String) -> (r: Ordering)
    ensures
        r == name_order(a@, b@),
{
    let x: &str = a.as_str();
    let y: &str = b.as_str();
    let n: usize = x.unicode_len();
    let m: usize = y.unicode_len();
    let mut i: usize = 0;
    assert(x@.subrange(0, n as int) =~= x@);
    assert(y@.subrange(0, m as int) =~= y@);
    while i < n && i < m
        invariant
            n == x@.len(),
            m == y@.len(),
            x@ == a@,
            y@ == b@,
            i <= n,
            i <= m,
            name_order(a@, b@) == name_order(x@.subrange(i as int, n as int), y@.subrange(i as int, m as int)),
        decreases n - i,
    {
        let c: u32 = x.get_char(i) as u32;
        let d: u32 = y.get_char(i) as u32;
        if c < d {
            return Ordering::Less;
        } else if c > d {
            return Ordering::Greater;
        }
        assert(x@.subrange(i as int, n as int).drop_first() =~= x@.subrange(i + 1, n as int));
        assert(y@.subrange(i as int, m as int).drop_first() =~= y@.subrange(i + 1, m as int));
        i += 1;
    }
    if i < n {
        Ordering::Greater
    } else if i < m {
        Ordering::Less
    } else {
        Ordering::Equal
    }
}

impl PartialOrd for Directory {
    /// Collections are ordered by their full names.
    fn partial_cmp(&self, other: &Directory) -> (r: Option<Ordering>)
        ensures
            r == Some(name_order(self.full_name@, other.full_name@)),
    {
        Some(compare_names(&self.full_name, &other.full_name))
    }
}

impl vstd::std_specs::cmp::PartialOrdSpecImpl for Directory {
    open spec fn obeys_partial_cmp_spec() -> bool {
        true
    }

    open spec fn partial_cmp_spec(&self, other: &Directory) -> Option<Ordering> {
        Some(name_order(self.full_name@, other.full_name@))
    }
}

impl Default for Directory {
    /// The root collection of the games tree.
    fn default() -> (r: Directory)
        ensures
            r@ == (DirectoryView { name: "Games"@, full_name: "Games"@, path: GAMES_DIR@ }),
    {
        Directory { name: "Games".to_owned(), full_name: "Games".to_owned(), path: GAMES_DIR.to_owned() }
    }
}

/// Building a descriptor from a path is deterministic: equal paths give equal
/// descriptors, whose full name is the path's file stem.
pub proof fn lemma_new_is_deterministic(p: Seq<char>, q: Seq<char>)
    requires
        p == q,
    ensures
        descriptor_of(p) == descriptor_of(q),
        descriptor_of(p).full_name == stem_of(q),
        descriptor_of(p).name == shortened(stem_of(q)),
{
}

} // verus!
