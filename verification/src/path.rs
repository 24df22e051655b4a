//! Paths and the extensions of file names.
//!
//! Names are byte strings: nothing here assumes that a file system only holds
//! names that are valid UTF-8.

use crate::order::{bytes_order_laws, bytes_precede, rank_bytes, Ordered, Rank};
use vstd::prelude::*;
use vstd::slice::slice_subrange;
use vstd::slice::slice_to_vec;
use vstd::std_specs::cmp::PartialEqSpecImpl;
use vstd::utf8::{decode_utf8, valid_utf8};

verus! {

/// Bucket used for files that have no extension (dotfiles such as `.gitignore`
/// among them, since the name of one is not an extension).
pub const NO_EXTENSION: &'static str = "<none>";

pub const SLASH: u8 = 47;

pub const DOT: u8 = 46;

/// One component of a path.
///
/// Components of different kinds are ordered as declared.
#[derive(Debug, PartialEq, Eq)]
pub enum PathPart {
    /// What a path starts with on a system with drives, such as `C:`.
    Prefix(Vec<u8>),
    /// The root of an absolute path.
    Root,
    /// A leading `.`.
    Current,
    /// A `..`.
    Parent,
    /// The name of a file or directory.
    Normal(Vec<u8>),
}

/// What the order of components looks at: the kind, then the name.
pub type PartKey = (int, Seq<u8>);

impl PathPart {
    pub open spec fn kind(&self) -> int {
        match self {
            PathPart::Prefix(_) => 0,
            PathPart::Root => 1,
            PathPart::Current => 2,
            PathPart::Parent => 3,
            PathPart::Normal(_) => 4,
        }
    }

    pub open spec fn name(&self) -> Seq<u8> {
        match self {
            PathPart::Prefix(name) => name@,
            PathPart::Normal(name) => name@,
            _ => Seq::empty(),
        }
    }

    fn kind_number(&self) -> (r: u8)
        ensures
            r == self.kind(),
    {
        match self {
            PathPart::Prefix(_) => 0,
            PathPart::Root => 1,
            PathPart::Current => 2,
            PathPart::Parent => 3,
            PathPart::Normal(_) => 4,
        }
    }
}

impl Clone for PathPart {
    fn clone(&self) -> (r: PathPart)
        ensures
            r.key() == self.key(),
    {
        match self {
            PathPart::Prefix(name) => PathPart::Prefix(slice_to_vec(name.as_slice())),
            PathPart::Root => PathPart::Root,
            PathPart::Current => PathPart::Current,
            PathPart::Parent => PathPart::Parent,
            PathPart::Normal(name) => PathPart::Normal(slice_to_vec(name.as_slice())),
        }
    }
}

impl Ordered for PathPart {
    type Key = PartKey;

    open spec fn key(&self) -> PartKey {
        (self.kind(), self.name())
    }

    open spec fn precedes(a: PartKey, b: PartKey) -> bool {
        a.0 < b.0 || (a.0 == b.0 && bytes_precede(a.1, b.1))
    }

    proof fn order_laws(a: PartKey, b: PartKey, c: PartKey) {
        bytes_order_laws(a.1, b.1, c.1);
    }

    fn rank(&self, other: &Self) -> (r: Rank) {
        let a: u8 = self.kind_number();
        let b: u8 = other.kind_number();
        proof {
            bytes_order_laws(self.name(), other.name(), self.name());
        }
        if a < b {
            Rank::First
        } else if b < a {
            Rank::Second
        } else {
            match (self, other) {
                (PathPart::Prefix(x), PathPart::Prefix(y)) => rank_bytes(
                    x.as_slice(),
                    y.as_slice(),
                ),
                (PathPart::Normal(x), PathPart::Normal(y)) => rank_bytes(
                    x.as_slice(),
                    y.as_slice(),
                ),
                _ => Rank::Same,
            }
        }
    }
}

/// A path: the components it is made of, and how it was spelled.
///
/// Two spellings that differ in repeated or trailing separators have the same
/// components, and so are the same path. A report writes a path as it was
/// spelled.
#[derive(Debug, Eq)]
pub struct FilePath {
    pub parts: Vec<PathPart>,
    pub spelling: Vec<u8>,
    /// What goes between the path and the name of an entry below it.
    pub separator: u8,
}

/// Paths are ordered component by component.
pub open spec fn parts_precede(a: Seq<PartKey>, b: Seq<PartKey>) -> bool
    decreases a.len(),
{
    if b.len() == 0 {
        false
    } else if a.len() == 0 {
        true
    } else if a[0] == b[0] {
        parts_precede(a.drop_first(), b.drop_first())
    } else {
        PathPart::precedes(a[0], b[0])
    }
}

proof fn parts_order_laws(a: Seq<PartKey>, b: Seq<PartKey>, c: Seq<PartKey>)
    ensures
        !parts_precede(a, a),
        parts_precede(a, b) && parts_precede(b, c) ==> parts_precede(a, c),
        a == b || parts_precede(a, b) || parts_precede(b, a),
    decreases a.len(),
{
    if a.len() > 0 {
        parts_order_laws(
            a.drop_first(),
            if b.len() > 0 { b.drop_first() } else { b },
            if c.len() > 0 { c.drop_first() } else { c },
        );
        if b.len() > 0 {
            PathPart::order_laws(a[0], b[0], if c.len() > 0 { c[0] } else { b[0] });
            PathPart::order_laws(a[0], b[0], a[0]);
            PathPart::order_laws(b[0], a[0], b[0]);
            if a[0] == b[0] && a.drop_first() == b.drop_first() {
                assert(a =~= seq![a[0]] + a.drop_first());
                assert(b =~= seq![b[0]] + b.drop_first());
            }
        }
    } else if b.len() == 0 {
        assert(a =~= b);
    }
}

proof fn parts_precede_skips_common_prefix(a: Seq<PartKey>, b: Seq<PartKey>, n: int)
    requires
        0 <= n <= a.len(),
        n <= b.len(),
        a.take(n) == b.take(n),
    ensures
        parts_precede(a, b) == parts_precede(a.skip(n), b.skip(n)),
    decreases n,
{
    if n == 0 {
        assert(a.skip(0) =~= a);
        assert(b.skip(0) =~= b);
    } else {
        assert(a[0] == a.take(n)[0]);
        assert(b[0] == b.take(n)[0]);
        assert(a.drop_first().take(n - 1) =~= a.take(n).drop_first());
        assert(b.drop_first().take(n - 1) =~= b.take(n).drop_first());
        parts_precede_skips_common_prefix(a.drop_first(), b.drop_first(), n - 1);
        assert(a.drop_first().skip(n - 1) =~= a.skip(n));
        assert(b.drop_first().skip(n - 1) =~= b.skip(n));
    }
}

/// The first component in which two paths differ decides which comes first. A
/// path comes ahead of those below it. A drive comes ahead of the root, the
/// root of a leading `.`, that of `..`, and that of a name; names are in the
/// order of their bytes.
pub proof fn the_first_component_decides(a: Seq<PartKey>, b: Seq<PartKey>, n: int)
    requires
        0 <= n <= a.len(),
        n <= b.len(),
        forall|i: int| 0 <= i < n ==> a[i] == b[i],
        n < a.len() && n < b.len() ==> a[n] != b[n],
    ensures
        n < a.len() && n < b.len() ==> (parts_precede(a, b) <==> a[n].0 < b[n].0 || (a[n].0
            == b[n].0 && bytes_precede(a[n].1, b[n].1))),
        n == a.len() ==> (parts_precede(a, b) <==> a.len() < b.len()),
        n == b.len() ==> !parts_precede(a, b),
{
    assert(a.take(n) =~= b.take(n));
    parts_precede_skips_common_prefix(a, b, n);
}

/// What each kind of component is ordered by.
pub proof fn kinds_of_components_keep_their_order(name: Vec<u8>)
    ensures
        PathPart::Prefix(name).key() == (0int, name@),
        PathPart::Root.key() == (1int, Seq::<u8>::empty()),
        PathPart::Current.key() == (2int, Seq::<u8>::empty()),
        PathPart::Parent.key() == (3int, Seq::<u8>::empty()),
        PathPart::Normal(name).key() == (4int, name@),
{
}

impl FilePath {
    /// The components, as the order sees them.
    pub open spec fn components(&self) -> Seq<PartKey> {
        Seq::new(self.parts@.len(), |i: int| self.parts@[i].key())
    }
}

/// The path of an entry called `name` in the directory at `directory`.
pub open spec fn joined(directory: Seq<PartKey>, name: Seq<u8>) -> Seq<PartKey> {
    directory.push((4, name))
}

impl FilePath {
    /// How the path of an entry called `name` is spelled: a separator goes in
    /// front of the name unless there is one already, or nothing but a drive.
    pub open spec fn joined_spelling(&self, name: Seq<u8>) -> Seq<u8> {
        let ahead = self.spelling@;
        if ahead.len() == 0 || ahead.last() == SLASH || ahead.last() == self.separator || (
        self.components().len() > 0 && self.components().last().0 == 0) {
            ahead + name
        } else {
            ahead.push(self.separator) + name
        }
    }

    /// The path of an entry called `name` in the directory at this path.
    pub fn join(&self, name: &[u8]) -> (r: FilePath)
        ensures
            r.components() == joined(self.components(), name@),
            r.spelling@ == self.joined_spelling(name@),
            r.separator == self.separator,
    {
        let mut r: FilePath = self.clone();
        let n: usize = self.spelling.len();
        let drive: bool = self.parts.len() > 0 && match &self.parts[self.parts.len() - 1] {
            PathPart::Prefix(_) => true,
            _ => false,
        };
        if n > 0 && self.spelling[n - 1] != SLASH && self.spelling[n - 1] != self.separator
            && !drive {
            r.spelling.push(self.separator);
        }
        let mut copy: Vec<u8> = slice_to_vec(name);
        r.spelling.append(&mut copy);
        let ghost before = r;
        r.parts.push(PathPart::Normal(slice_to_vec(name)));
        assert forall|i: int| 0 <= i < r.parts@.len() implies r.components()[i] == joined(
            self.components(),
            name@,
        )[i] by {
            if i < before.parts@.len() {
                assert(before.components()[i] == self.components()[i]);
            }
        }
        assert(before.components().len() == self.components().len());
        assert(r.components() =~= joined(self.components(), name@));
        r
    }
}

impl Clone for FilePath {
    fn clone(&self) -> (r: FilePath)
        ensures
            r.components() == self.components(),
            r.spelling@ == self.spelling@,
            r.separator == self.separator,
    {
        let mut parts: Vec<PathPart> = Vec::new();
        let mut i: usize = 0;
        while i < self.parts.len()
            invariant
                i <= self.parts@.len(),
                parts@.len() == i,
                forall|k: int| 0 <= k < i ==> (#[trigger] parts@[k]).key() == self.parts@[k].key(),
            decreases self.parts.len() - i,
        {
            parts.push(self.parts[i].clone());
            i = i + 1;
        }
        let r = FilePath {
            parts,
            spelling: slice_to_vec(self.spelling.as_slice()),
            separator: self.separator,
        };
        assert(r.components() =~= self.components());
        r
    }
}

impl Ordered for FilePath {
    type Key = Seq<PartKey>;

    open spec fn key(&self) -> Seq<PartKey> {
        self.components()
    }

    open spec fn precedes(a: Seq<PartKey>, b: Seq<PartKey>) -> bool {
        parts_precede(a, b)
    }

    proof fn order_laws(a: Seq<PartKey>, b: Seq<PartKey>, c: Seq<PartKey>) {
        parts_order_laws(a, b, c);
    }

    fn rank(&self, other: &Self) -> (r: Rank) {
        let ghost a = self.components();
        let ghost b = other.components();
        let mut i: usize = 0;
        while i < self.parts.len() && i < other.parts.len()
            invariant
                a == self.components(),
                b == other.components(),
                i <= a.len(),
                i <= b.len(),
                a.take(i as int) == b.take(i as int),
            decreases self.parts.len() - i,
        {
            proof {
                parts_precede_skips_common_prefix(a, b, i as int);
                parts_precede_skips_common_prefix(b, a, i as int);
                PathPart::order_laws(a[i as int], b[i as int], a[i as int]);
            }
            match self.parts[i].rank(&other.parts[i]) {
                Rank::First => {
                    assert(a.take(i + 1)[i as int] != b.take(i + 1)[i as int]);
                    proof {
                        parts_order_laws(a, b, a);
                    }
                    return Rank::First;
                },
                Rank::Second => {
                    proof {
                        parts_order_laws(b, a, b);
                    }
                    return Rank::Second;
                },
                Rank::Same => {},
            }
            assert(a.take(i + 1) =~= a.take(i as int).push(a[i as int]));
            assert(b.take(i + 1) =~= b.take(i as int).push(b[i as int]));
            i = i + 1;
        }
        proof {
            parts_precede_skips_common_prefix(a, b, i as int);
            parts_precede_skips_common_prefix(b, a, i as int);
            parts_order_laws(a, b, a);
            if i == a.len() && i == b.len() {
                assert(a.take(i as int) =~= a);
                assert(b.take(i as int) =~= b);
            }
        }
        if i < self.parts.len() {
            Rank::Second
        } else if i < other.parts.len() {
            Rank::First
        } else {
            Rank::Same
        }
    }
}

impl PartialEq for FilePath {
    /// Paths are equal by what they are made of, however they are spelled.
    fn eq(&self, other: &Self) -> (r: bool) {
        proof {
            parts_order_laws(self.components(), self.components(), self.components());
        }
        match self.rank(other) {
            Rank::Same => true,
            _ => false,
        }
    }
}

impl PartialEqSpecImpl for FilePath {
    open spec fn obeys_eq_spec() -> bool {
        true
    }

    open spec fn eq_spec(&self, other: &Self) -> bool {
        self.components() == other.components()
    }
}

/// Says how each path is spelled, by what it is made of.
pub type Spelling = spec_fn(Seq<PartKey>) -> Seq<u8>;

/// The paths that are spelled as `spelling` says.
pub open spec fn spelled(spelling: Spelling) -> spec_fn(FilePath) -> bool {
    |path: FilePath| path.spelled_by(spelling)
}

impl FilePath {
    /// Whether the path is spelled as `spelling` says.
    pub open spec fn spelled_by(&self, spelling: Spelling) -> bool {
        self.spelling@ == spelling(self.components())
    }
}

/// Where the part of `s` behind the last `mark` begins: zero if there is no
/// `mark` in it.
pub open spec fn behind_last(s: Seq<u8>, mark: u8) -> int
    decreases s.len(),
{
    if s.len() == 0 {
        0
    } else if s.last() == mark {
        s.len() as int
    } else {
        behind_last(s.drop_last(), mark)
    }
}

proof fn behind_last_is_in_range(s: Seq<u8>, mark: u8)
    ensures
        0 <= behind_last(s, mark) <= s.len(),
        behind_last(s, mark) > 0 ==> s[behind_last(s, mark) - 1] == mark,
    decreases s.len(),
{
    if s.len() > 0 {
        behind_last_is_in_range(s.drop_last(), mark);
    }
}

/// The final component of a path, if it is a name rather than the root, `.`
/// or `..`. Separators and `.` components at the end do not count.
pub open spec fn final_name(path: Seq<u8>) -> Option<Seq<u8>>
    decreases path.len(),
{
    let start = behind_last(path, SLASH);
    let name = path.skip(start);
    if path.len() == 0 {
        None
    } else if path.last() == SLASH {
        final_name(path.drop_last())
    } else if name == seq![DOT] {
        if 0 < start < path.len() {
            final_name(path.take(start))
        } else {
            None
        }
    } else if name == seq![DOT, DOT] {
        None
    } else {
        Some(name)
    }
}

/// The part of a name behind its final dot. A name without a dot has none, and
/// neither has one whose only dot comes first.
pub open spec fn extension_part(name: Seq<u8>) -> Option<Seq<u8>> {
    let start = behind_last(name, DOT);
    if start <= 1 {
        None
    } else {
        Some(name.skip(start))
    }
}

/// The bytes of the extension of the file that `file_name` names.
pub open spec fn extension_bytes(file_name: Seq<u8>) -> Option<Seq<u8>> {
    match final_name(file_name) {
        Some(name) => extension_part(name),
        None => None,
    }
}

fn find_behind_last(s: &[u8], len: usize, mark: u8) -> (r: usize)
    requires
        len <= s@.len(),
    ensures
        r == behind_last(s@.take(len as int), mark),
        r <= len,
{
    let mut i: usize = len;
    while i > 0 && s[i - 1] != mark
        invariant
            i <= len <= s@.len(),
            behind_last(s@.take(i as int), mark) == behind_last(s@.take(len as int), mark),
        decreases i,
    {
        assert(s@.take(i as int).drop_last() =~= s@.take(i - 1));
        i = i - 1;
    }
    i
}

fn find_final_name(path: &[u8]) -> (r: Option<&[u8]>)
    ensures
        match r {
            Some(name) => final_name(path@) == Some(name@),
            None => final_name(path@) is None,
        },
{
    let mut len: usize = path.len();
    assert(path@.take(len as int) =~= path@);
    while len > 0
        invariant
            len <= path@.len(),
            final_name(path@.take(len as int)) == final_name(path@),
        decreases len,
    {
        let ghost whole = path@.take(len as int);
        if path[len - 1] == SLASH {
            assert(whole.drop_last() =~= path@.take(len - 1));
            len = len - 1;
        } else {
            let start: usize = find_behind_last(path, len, SLASH);
            proof {
                behind_last_is_in_range(whole, SLASH);
            }
            let name: &[u8] = slice_subrange(path, start, len);
            assert(name@ =~= whole.skip(start as int));
            if name.len() == 1 && name[0] == DOT {
                assert(name@ =~= seq![DOT]);
                if start == 0 {
                    return None;
                }
                assert(whole.take(start as int) =~= path@.take(start as int));
                len = start;
            } else if name.len() == 2 && name[0] == DOT && name[1] == DOT {
                assert(name@ =~= seq![DOT, DOT]);
                return None;
            } else {
                assert(name@ != seq![DOT]);
                assert(name@ != seq![DOT, DOT]);
                return Some(name);
            }
        }
    }
    None
}

/// What replacing every ill-formed sequence in `bytes` by U+FFFD reads as.
pub uninterp spec fn lossy_utf8(bytes: Seq<u8>) -> Seq<char>;

/// Calls `String::from_utf8_lossy`. What it returns is a function of the bytes
/// alone, and is only empty if there are none; where they are valid UTF-8 it is
/// the text that they encode, and elsewhere the exact placement of replacement
/// characters is left unsaid.
#[verifier::external_body]
pub(crate) fn lossy_text(bytes: &[u8]) -> (r: String)
    ensures
        r@ == lossy_utf8(bytes@),
        valid_utf8(bytes@) ==> r@ == decode_utf8(bytes@),
        bytes@.len() > 0 ==> r@.len() > 0,
{
    String::from_utf8_lossy(bytes).into_owned()
}

/// The bucket that files with the given extension go to. An empty extension
/// is grouped with the missing ones rather than becoming a nameless bucket.
pub open spec fn bucket_name_of(extension: Option<Seq<char>>) -> Seq<char> {
    match extension {
        Some(text) => if text.len() == 0 {
            NO_EXTENSION@
        } else {
            text
        },
        None => NO_EXTENSION@,
    }
}

pub fn bucket_name(extension: Option<String>) -> (r: String)
    ensures
        r@ == bucket_name_of(
            match extension {
                Some(text) => Some(text@),
                None => None,
            },
        ),
{
    match extension {
        Some(text) => if text.as_str().is_empty() {
            NO_EXTENSION.to_owned()
        } else {
            text
        },
        None => NO_EXTENSION.to_owned(),
    }
}

/// A missing extension and an empty one go under `<none>`, and any other under
/// its own text.
pub proof fn nameless_extensions_share_a_bucket(text: Seq<char>)
    ensures
        bucket_name_of(None) == "<none>"@,
        text.len() == 0 ==> bucket_name_of(Some(text)) == "<none>"@,
        text.len() > 0 ==> bucket_name_of(Some(text)) == text,
{
}

/// The bucket that a file called `file_name` goes to.
pub open spec fn extension_text(file_name: Seq<u8>) -> Seq<char> {
    bucket_name_of(
        match extension_bytes(file_name) {
            Some(bytes) => Some(lossy_utf8(bytes)),
            None => None,
        },
    )
}

/// Extension of a file name, or [`NO_EXTENSION`] if it has none.
///
/// The extension is what follows the final dot, so `Makefile` and `.gitignore`
/// are reported as extensionless instead of as their own name. Names that are
/// not valid UTF-8 are lossily converted rather than rejected. A name ending
/// in a bare '.' has an empty extension, which is grouped with the
/// extensionless files rather than becoming a nameless bucket.
///
/// A name out of a directory listing holds no separators. Where one is given
/// that does, `/` is the one that counts.
pub fn extension_of(file_name: &[u8]) -> (r: String)
    ensures
        r@ == extension_text(file_name@),
        extension_bytes(file_name@) is None ==> r@ == NO_EXTENSION@,
        extension_bytes(file_name@) matches Some(bytes) ==> valid_utf8(bytes) ==> r@
            == bucket_name_of(Some(decode_utf8(bytes))),
        extension_bytes(file_name@) == Some(Seq::<u8>::empty()) ==> r@ == NO_EXTENSION@,
        extension_bytes(file_name@) matches Some(bytes) ==> bytes.len() > 0 ==> r@ == lossy_utf8(
            bytes,
        ),
{
    proof {
        let nothing = Seq::<u8>::empty();
        assert(valid_utf8(nothing) && decode_utf8(nothing) =~= Seq::<char>::empty());
    }
    match find_final_name(file_name) {
        Some(name) => {
            let start: usize = find_behind_last(name, name.len(), DOT);
            assert(name@.take(name@.len() as int) =~= name@);
            if start <= 1 {
                bucket_name(None)
            } else {
                let extension: &[u8] = slice_subrange(name, start, name.len());
                assert(extension@ =~= name@.skip(start as int));
                bucket_name(Some(lossy_text(extension)))
            }
        },
        None => bucket_name(None),
    }
}

/// How a component is spelled.
pub open spec fn part_bytes(part: PartKey) -> Seq<u8> {
    if part.0 == 1 {
        seq![SLASH]
    } else if part.0 == 2 {
        seq![DOT]
    } else if part.0 == 3 {
        seq![DOT, DOT]
    } else {
        part.1
    }
}

/// Whether a separator goes between what is spelled so far, which ends in the
/// component `ahead`, and the component `next`. The root is a separator itself,
/// and a prefix is followed by none but it.
pub open spec fn separated(front: Seq<u8>, ahead: PartKey, next: PartKey) -> bool {
    front.len() > 0 && front.last() != SLASH && ahead.0 != 0 && next.0 != 1
}

/// How components are spelled: one behind the other, with separators between
/// them.
pub open spec fn path_bytes(components: Seq<PartKey>) -> Seq<u8>
    decreases components.len(),
{
    if components.len() == 0 {
        Seq::empty()
    } else {
        let front = path_bytes(components.drop_last());
        let part = part_bytes(components.last());
        if components.len() > 1 && separated(
            front,
            components[components.len() - 2],
            components.last(),
        ) {
            front + seq![SLASH] + part
        } else {
            front + part
        }
    }
}

impl FilePath {
    /// How the components are spelled.
    fn component_bytes(&self) -> (r: Vec<u8>)
        ensures
            r@ == path_bytes(self.components()),
    {
        let ghost all = self.components();
        let mut r: Vec<u8> = Vec::new();
        let mut i: usize = 0;
        assert(all.take(0) =~= Seq::empty());
        while i < self.parts.len()
            invariant
                all == self.components(),
                i <= self.parts@.len(),
                r@ == path_bytes(all.take(i as int)),
            decreases self.parts.len() - i,
        {
            assert(all.take(i + 1).drop_last() =~= all.take(i as int));
            assert(all.take(i + 1).last() == self.parts@[i as int].key());
            let ghost front = r@;
            let plain: bool = match &self.parts[i] {
                PathPart::Root => false,
                _ => true,
            };
            let behind_prefix: bool = i > 0 && match &self.parts[i - 1] {
                PathPart::Prefix(_) => true,
                _ => false,
            };
            proof {
                if i > 0 {
                    assert(all.take(i + 1)[i - 1] == self.parts@[i - 1].key());
                }
            }
            if r.len() > 0 && r[r.len() - 1] != SLASH && plain && !behind_prefix {
                r.push(SLASH);
                assert(r@ =~= front + seq![SLASH]);
            }
            let ghost ahead = r@;
            match &self.parts[i] {
                PathPart::Prefix(name) => {
                    let mut copy: Vec<u8> = slice_to_vec(name.as_slice());
                    r.append(&mut copy);
                    assert(r@ =~= ahead + name@);
                },
                PathPart::Root => {
                    r.push(SLASH);
                    assert(r@ =~= ahead + seq![SLASH]);
                },
                PathPart::Current => {
                    r.push(DOT);
                    assert(r@ =~= ahead + seq![DOT]);
                },
                PathPart::Parent => {
                    r.push(DOT);
                    r.push(DOT);
                    assert(r@ =~= ahead + seq![DOT, DOT]);
                },
                PathPart::Normal(name) => {
                    let mut copy: Vec<u8> = slice_to_vec(name.as_slice());
                    r.append(&mut copy);
                    assert(r@ =~= ahead + name@);
                },
            }
            i = i + 1;
        }
        assert(all.take(i as int) =~= all);
        r
    }

    /// The path as it was spelled, with anything that is not text replaced.
    pub fn to_text(&self) -> (r: String)
        ensures
            r@ == lossy_utf8(self.spelling@),
            valid_utf8(self.spelling@) ==> r@ == decode_utf8(self.spelling@),
    {
        lossy_text(self.spelling.as_slice())
    }
}

impl FilePath {
    /// How long the path is below the root of the scan. A path that is not
    /// below the root counts in full.
    pub open spec fn length_below_root(&self, root: FilePath) -> nat {
        let mine = self.components();
        let n = root.components().len() as int;
        if n <= mine.len() && mine.take(n) == root.components() {
            path_bytes(mine.skip(n)).len()
        } else {
            self.spelling@.len()
        }
    }
}

impl FilePath {
    fn starts_with(&self, root: &FilePath) -> (r: bool)
        ensures
            r == (root.components().len() <= self.components().len() && self.components().take(
                root.components().len() as int,
            ) == root.components()),
    {
        let ghost mine = self.components();
        let ghost theirs = root.components();
        if root.parts.len() > self.parts.len() {
            return false;
        }
        let mut i: usize = 0;
        while i < root.parts.len()
            invariant
                mine == self.components(),
                theirs == root.components(),
                i <= theirs.len() <= mine.len(),
                forall|k: int| 0 <= k < i ==> mine[k] == theirs[k],
            decreases root.parts.len() - i,
        {
            match self.parts[i].rank(&root.parts[i]) {
                Rank::Same => {},
                _ => {
                    proof {
                        PathPart::order_laws(mine[i as int], mine[i as int], mine[i as int]);
                        assert(mine.take(theirs.len() as int)[i as int] == mine[i as int]);
                    }
                    return false;
                },
            }
            i = i + 1;
        }
        assert(mine.take(theirs.len() as int) =~= theirs);
        true
    }

    /// How long the path is below the root of the scan, since the prefix a tree
    /// currently sits under changes the moment it is copied anywhere else.
    pub fn length_below(&self, root: &FilePath) -> (r: usize)
        ensures
            r == self.length_below_root(*root),
    {
        if !self.starts_with(root) {
            return self.spelling.len();
        }
        let ghost below = self.components().skip(root.components().len() as int);
        let mut parts: Vec<PathPart> = Vec::new();
        let mut i: usize = root.parts.len();
        while i < self.parts.len()
            invariant
                root.parts@.len() <= i <= self.parts@.len(),
                below == self.components().skip(root.components().len() as int),
                parts@.len() == i - root.parts@.len(),
                forall|k: int| 0 <= k < parts@.len() ==> (#[trigger] parts@[k]).key() == below[k],
            decreases self.parts.len() - i,
        {
            parts.push(self.parts[i].clone());
            i = i + 1;
        }
        let rest = FilePath { parts, spelling: Vec::new(), separator: SLASH };
        assert(rest.components() =~= below);
        rest.component_bytes().len()
    }
}

/// Whether every component is a name, as those below the root of a scan are.
pub open spec fn are_names(components: Seq<PartKey>) -> bool {
    forall|i: int|
        0 <= i < components.len() ==> {
            let part = #[trigger] components[i];
            part.0 == 4 && part.1.len() > 0 && is_free_of(part.1, SLASH)
        }
}

proof fn names_are_spelled_out(components: Seq<PartKey>)
    requires
        are_names(components),
    ensures
        components.len() > 0 ==> path_bytes(components).len() > 0 && path_bytes(components).last()
            != SLASH,
        components.len() == 0 ==> path_bytes(components).len() == 0,
{
    if components.len() > 0 {
        let last = components[components.len() - 1];
        assert(last == components.last());
        assert(last.1[last.1.len() - 1] != SLASH);
    }
}

/// The root itself has no length. An entry is as much longer than its
/// directory as its name is, and one byte more for the separator unless it sits
/// in the root. Where the root stands makes no difference.
pub proof fn an_entry_is_longer_by_its_name(
    root: FilePath,
    directory: FilePath,
    entry: FilePath,
    below: Seq<PartKey>,
    name: Seq<u8>,
)
    requires
        directory.components() == root.components() + below,
        entry.components() == directory.components().push((4, name)),
        are_names(below.push((4, name))),
    ensures
        root.length_below_root(root) == 0,
        below.len() == 0 ==> directory.length_below_root(root) == 0,
        below.len() == 0 ==> entry.length_below_root(root) == name.len(),
        below.len() > 0 ==> entry.length_below_root(root) == directory.length_below_root(root) + 1
            + name.len(),
{
    let n = root.components().len() as int;
    let longer = below.push((4, name));
    assert(root.components().take(n) =~= root.components());
    assert(root.components().skip(n) =~= Seq::<PartKey>::empty());
    assert(directory.components().take(n) =~= root.components());
    assert(directory.components().skip(n) =~= below);
    assert(entry.components().take(n) =~= root.components());
    assert(entry.components().skip(n) =~= longer);
    assert(are_names(below)) by {
        assert forall|i: int| 0 <= i < below.len() implies {
            let part = #[trigger] below[i];
            part.0 == 4 && part.1.len() > 0 && is_free_of(part.1, SLASH)
        } by {
            assert(longer[i] == below[i]);
        }
    }
    names_are_spelled_out(below);
    assert(longer.drop_last() =~= below);
    if below.len() > 0 {
        assert(longer[longer.len() - 2] == below[below.len() - 1]);
    }
}

/// A path that is not below the root counts as it is spelled.
pub proof fn a_path_elsewhere_counts_in_full(root: FilePath, path: FilePath, i: int)
    requires
        0 <= i < root.components().len(),
        i < path.components().len() ==> path.components()[i] != root.components()[i],
    ensures
        path.length_below_root(root) == path.spelling@.len(),
{
    let n = root.components().len() as int;
    if n <= path.components().len() {
        assert(path.components().take(n)[i] == path.components()[i]);
    }
}

/// What stands between two separators, or behind the last one. Nothing at all
/// and a `.` count for nothing.
pub open spec fn inner_part(piece: Seq<u8>) -> Seq<PartKey> {
    if piece.len() == 0 || piece == seq![DOT] {
        Seq::empty()
    } else if piece == seq![DOT, DOT] {
        seq![(3, Seq::empty())]
    } else {
        seq![(4, piece)]
    }
}

/// What stands ahead of any separator. Here a `.` counts.
pub open spec fn first_part(piece: Seq<u8>) -> Seq<PartKey> {
    if piece == seq![DOT] {
        seq![(2, Seq::empty())]
    } else {
        inner_part(piece)
    }
}

/// The components of a path that is spelled with slashes.
pub open spec fn components_of(spelling: Seq<u8>) -> Seq<PartKey>
    decreases spelling.len(),
    via components_of_shorter
{
    let start = behind_last(spelling, SLASH);
    let piece = spelling.skip(start);
    if start <= 0 || start > spelling.len() {
        first_part(spelling)
    } else if start == 1 {
        seq![(1, Seq::empty())] + inner_part(piece)
    } else {
        components_of(spelling.take(start - 1)) + inner_part(piece)
    }
}

#[via_fn]
proof fn components_of_shorter(spelling: Seq<u8>) {
    behind_last_is_in_range(spelling, SLASH);
}

/// The keys of `parts`, last one first.
spec fn keys_backwards(parts: Seq<PathPart>) -> Seq<PartKey> {
    Seq::new(parts.len(), |i: int| parts[parts.len() - 1 - i].key())
}

/// What stands in `piece`, in front of what was found behind it.
fn push_piece(back: &mut Vec<PathPart>, piece: &[u8], is_first: bool)
    ensures
        keys_backwards(final(back)@) == (if is_first {
            first_part(piece@)
        } else {
            inner_part(piece@)
        }) + keys_backwards(old(back)@),
{
    let ghost before = back@;
    if piece.len() == 1 && piece[0] == DOT {
        assert(piece@ =~= seq![DOT]);
        if is_first {
            back.push(PathPart::Current);
        }
    } else if piece.len() == 2 && piece[0] == DOT && piece[1] == DOT {
        assert(piece@ =~= seq![DOT, DOT]);
        back.push(PathPart::Parent);
    } else if piece.len() > 0 {
        back.push(PathPart::Normal(slice_to_vec(piece)));
    }
    proof {
        let found = if is_first {
            first_part(piece@)
        } else {
            inner_part(piece@)
        };
        if found.len() > 0 {
            assert(back@ =~= before.push(back@.last()));
            assert(back@.last().key() == found[0]);
        }
        assert(keys_backwards(back@) =~= found + keys_backwards(before));
    }
}

/// The components of a path that is spelled with slashes, last one first.
fn parse_backwards(bytes: &[u8]) -> (back: Vec<PathPart>)
    ensures
        keys_backwards(back@) == components_of(bytes@),
{
    let ghost whole = components_of(bytes@);
    let mut back: Vec<PathPart> = Vec::new();
    let mut len: usize = bytes.len();
    let mut more: bool = true;
    assert(bytes@.take(len as int) =~= bytes@);
    assert(whole + keys_backwards(back@) =~= whole);
    while more
        invariant
            whole == components_of(bytes@),
            len <= bytes@.len(),
            more ==> whole == components_of(bytes@.take(len as int)) + keys_backwards(back@),
            !more ==> whole == keys_backwards(back@),
        decreases len, more as int,
    {
        let ghost s = bytes@.take(len as int);
        let ghost behind = keys_backwards(back@);
        let start: usize = find_behind_last(bytes, len, SLASH);
        proof {
            behind_last_is_in_range(s, SLASH);
            if start > 0 {
                assert(s.take(start - 1) =~= bytes@.take(start - 1));
            }
        }
        let piece: &[u8] = slice_subrange(bytes, start, len);
        assert(piece@ =~= s.skip(start as int));
        if start == 0 {
            assert(piece@ =~= s);
        }
        push_piece(&mut back, piece, start == 0);
        let ghost found = keys_backwards(back@);
        if start > 1 {
            len = start - 1;
            proof {
                let ahead = components_of(bytes@.take(len as int));
                assert(ahead + inner_part(piece@) + behind =~= ahead + found);
            }
        } else {
            more = false;
            if start == 1 {
                back.push(PathPart::Root);
                proof {
                    let root: Seq<PartKey> = seq![(1, Seq::empty())];
                    assert(keys_backwards(back@) =~= root + found);
                    assert(root + inner_part(piece@) + behind =~= root + found);
                }
            }
        }
    }
    back
}

impl FilePath {
    /// The path that is spelled so, with slashes. Repeated and trailing slashes
    /// are passed over, and so is any `.` but one at the very start.
    pub fn from_bytes(spelling: &[u8]) -> (r: FilePath)
        ensures
            r.components() == components_of(spelling@),
            r.spelling@ == spelling@,
            r.separator == SLASH,
    {
        let mut back: Vec<PathPart> = parse_backwards(spelling);
        let ghost all = back@;
        let mut parts: Vec<PathPart> = Vec::new();
        while back.len() > 0
            invariant
                back@.len() + parts@.len() == all.len(),
                back@ == all.take(back@.len() as int),
                forall|i: int|
                    0 <= i < parts@.len() ==> (#[trigger] parts@[i]) == all[all.len() - 1 - i],
            decreases back.len(),
        {
            let ghost before = back@;
            match back.pop() {
                Some(part) => {
                    assert(before.last() == all[before.len() - 1]);
                    assert(back@ =~= all.take(back@.len() as int));
                    parts.push(part);
                },
                None => {},
            }
        }
        let r = FilePath { parts, spelling: slice_to_vec(spelling), separator: SLASH };
        assert(r.components() =~= keys_backwards(all));
        r
    }
}

/// Whether `mark` does not occur in `s`.
pub open spec fn is_free_of(s: Seq<u8>, mark: u8) -> bool {
    forall|i: int| 0 <= i < s.len() ==> #[trigger] s[i] != mark
}

proof fn behind_last_of(front: Seq<u8>, tail: Seq<u8>, mark: u8)
    requires
        is_free_of(tail, mark),
    ensures
        behind_last(front.push(mark) + tail, mark) == front.len() + 1,
    decreases tail.len(),
{
    let s = front.push(mark) + tail;
    if tail.len() == 0 {
        assert(s =~= front.push(mark));
    } else {
        assert(s.last() == tail[tail.len() - 1]);
        assert(s.drop_last() =~= front.push(mark) + tail.drop_last());
        assert forall|i: int| 0 <= i < tail.drop_last().len() implies #[trigger] tail.drop_last()[i]
            != mark by {
            assert(tail[i] != mark);
        }
        behind_last_of(front, tail.drop_last(), mark);
    }
}

proof fn behind_last_of_none(s: Seq<u8>, mark: u8)
    requires
        is_free_of(s, mark),
    ensures
        behind_last(s, mark) == 0,
    decreases s.len(),
{
    if s.len() > 0 {
        assert(s.last() == s[s.len() - 1]);
        assert forall|i: int| 0 <= i < s.drop_last().len() implies #[trigger] s.drop_last()[i]
            != mark by {
            assert(s[i] != mark);
        }
        behind_last_of_none(s.drop_last(), mark);
    }
}

proof fn no_drive_is_spelled_with_slashes(spelling: Seq<u8>)
    ensures
        forall|i: int|
            0 <= i < components_of(spelling).len() ==> (#[trigger] components_of(spelling)[i]).0
                != 0,
    decreases spelling.len(),
{
    let start = behind_last(spelling, SLASH);
    behind_last_is_in_range(spelling, SLASH);
    if start > 1 {
        let ahead = components_of(spelling.take(start - 1));
        no_drive_is_spelled_with_slashes(spelling.take(start - 1));
        assert forall|i: int| 0 <= i < components_of(spelling).len() implies (#[trigger]
        components_of(spelling)[i]).0 != 0 by {
            if i < ahead.len() {
                assert(components_of(spelling)[i] == ahead[i]);
            }
        }
    }
}

/// The spelling of an entry of a directory is that of a path: reading it gives
/// the directory and the name again.
pub proof fn joining_spells_the_longer_path(directory: FilePath, name: Seq<u8>)
    requires
        directory.separator == SLASH,
        directory.components() == components_of(directory.spelling@),
        name.len() > 0,
        is_free_of(name, SLASH),
        name != seq![DOT],
        name != seq![DOT, DOT],
    ensures
        components_of(directory.joined_spelling(name)) == joined(directory.components(), name),
{
    let ahead = directory.spelling@;
    let whole = directory.joined_spelling(name);
    no_drive_is_spelled_with_slashes(ahead);
    if ahead.len() == 0 {
        assert(whole =~= name);
        behind_last_of_none(name, SLASH);
        behind_last_of_none(ahead, SLASH);
        assert(components_of(whole) =~= joined(directory.components(), name));
    } else {
        let front = if ahead.last() == SLASH {
            ahead.drop_last()
        } else {
            ahead
        };
        assert(whole =~= front.push(SLASH) + name);
        behind_last_of(front, name, SLASH);
        let start = front.len() + 1;
        assert(whole.skip(start as int) =~= name);
        if ahead.last() == SLASH {
            assert(ahead.skip(ahead.len() as int) =~= Seq::<u8>::empty());
            assert(ahead.take(ahead.len() - 1) =~= front);
            if front.len() > 0 {
                assert(components_of(ahead) =~= components_of(front));
            }
        }
        assert(whole.take(start - 1) =~= front);
        assert(components_of(whole) =~= joined(directory.components(), name));
    }
}

/// What a piece behind a slash adds to a path.
proof fn piece_behind_slash(front: Seq<u8>, piece: Seq<u8>)
    requires
        is_free_of(piece, SLASH),
    ensures
        components_of(front.push(SLASH) + piece) == (if front.len() == 0 {
            seq![(1, Seq::empty())]
        } else {
            components_of(front)
        }) + inner_part(piece),
{
    let whole = front.push(SLASH) + piece;
    behind_last_of(front, piece, SLASH);
    assert(whole.skip(front.len() as int + 1) =~= piece);
    assert(whole.take(front.len() as int) =~= front);
}

/// How a path is read. A slash in front is the root. Slashes at the end and
/// repeated ones change nothing, nor does a `.` behind a slash; at the very
/// start it stands for itself. A `..` is never resolved.
pub proof fn a_path_is_read_piece_by_piece(front: Seq<u8>, name: Seq<u8>)
    requires
        name.len() > 0,
        is_free_of(name, SLASH),
        name != seq![0x2eu8],
        name != seq![0x2eu8, 0x2e],
    ensures
        components_of(Seq::empty()) == Seq::<PartKey>::empty(),
        components_of(name) == seq![(4int, name)],
        components_of(seq![0x2eu8]) == seq![(2int, Seq::<u8>::empty())],
        components_of(seq![0x2eu8, 0x2e]) == seq![(3int, Seq::<u8>::empty())],
        components_of(seq![0x2fu8]) == seq![(1int, Seq::<u8>::empty())],
        components_of(seq![0x2fu8] + name) == seq![(1int, Seq::<u8>::empty()), (4int, name)],
        front.len() > 0 ==> {
            &&& components_of(front.push(0x2f)) == components_of(front)
            &&& components_of(front.push(0x2f) + name) == components_of(front).push((4, name))
            &&& components_of(front.push(0x2f) + seq![0x2eu8]) == components_of(front)
            &&& components_of(front.push(0x2f) + seq![0x2eu8, 0x2e]) == components_of(front).push(
                (3, Seq::empty()),
            )
        },
{
    let none = Seq::<u8>::empty();
    let dot = seq![DOT];
    let dots = seq![DOT, DOT];
    behind_last_of_none(none, SLASH);
    behind_last_of_none(name, SLASH);
    behind_last_of_none(dot, SLASH);
    behind_last_of_none(dots, SLASH);
    assert(dots != dot) by {
        assert(dots.len() == 2 && dot.len() == 1);
    }
    piece_behind_slash(none, none);
    piece_behind_slash(none, name);
    assert(none.push(SLASH) + none =~= seq![SLASH]);
    assert(none.push(SLASH) + name =~= seq![SLASH] + name);
    let root: Seq<PartKey> = seq![(1, Seq::empty())];
    assert(root + inner_part(none) =~= root);
    assert(root + inner_part(name) =~= seq![(1int, Seq::<u8>::empty()), (4int, name)]);
    piece_behind_slash(front, none);
    piece_behind_slash(front, name);
    piece_behind_slash(front, dot);
    piece_behind_slash(front, dots);
    assert(front.push(SLASH) + none =~= front.push(SLASH));
    let ahead = components_of(front);
    assert(ahead + inner_part(none) =~= ahead);
    assert(ahead + inner_part(dot) =~= ahead);
    assert(ahead + inner_part(name) =~= ahead.push((4, name)));
    assert(ahead + inner_part(dots) =~= ahead.push((3, Seq::empty())));
}

/// An entry is spelled as its directory and then its name, with a separator
/// between them and nothing else changed.
pub proof fn an_entry_is_spelled_behind_its_directory(directory: FilePath, name: Seq<u8>)
    ensures
        directory.joined_spelling(name).take(directory.spelling@.len() as int)
            == directory.spelling@,
        directory.joined_spelling(name).skip(
            directory.joined_spelling(name).len() - name.len(),
        ) == name,
        directory.joined_spelling(name).len() <= directory.spelling@.len() + 1 + name.len(),
        directory.joined_spelling(name).len() > directory.spelling@.len() + name.len()
            ==> directory.joined_spelling(name)[directory.spelling@.len() as int]
            == directory.separator,
        directory.spelling@.len() == 0 ==> directory.joined_spelling(name) == name,
        directory.spelling@.len() > 0 && (directory.spelling@.last() == 0x2f
            || directory.spelling@.last() == directory.separator)
            ==> directory.joined_spelling(name).len() == directory.spelling@.len() + name.len(),
        directory.spelling@.len() > 0 && directory.spelling@.last() != 0x2f
            && directory.spelling@.last() != directory.separator && (
        directory.components().len() == 0 || directory.components().last().0 != 0)
            ==> directory.joined_spelling(name).len() == directory.spelling@.len() + 1
            + name.len(),
{
    let whole = directory.joined_spelling(name);
    assert(whole.take(directory.spelling@.len() as int) =~= directory.spelling@);
    if directory.spelling@.len() == 0 {
        assert(whole =~= name);
    }
    assert(whole.skip(whole.len() - name.len()) =~= name);
}

proof fn final_name_of_plain_name(name: Seq<u8>)
    requires
        is_free_of(name, SLASH),
        name.len() > 0,
        name != seq![DOT],
        name != seq![DOT, DOT],
    ensures
        final_name(name) == Some(name),
{
    behind_last_of_none(name, SLASH);
    assert(name.last() == name[name.len() - 1]);
    assert(name.skip(0) =~= name);
}

/// The name of a file is what stands behind the last slash of its path.
/// Slashes behind it change nothing, nor does a `.` behind those, and a path
/// that ends in `..` names no file.
pub proof fn a_file_is_named_behind_the_last_slash(front: Seq<u8>, name: Seq<u8>)
    requires
        name.len() > 0,
        is_free_of(name, SLASH),
        name != seq![0x2eu8],
        name != seq![0x2eu8, 0x2e],
    ensures
        final_name(name) == Some(name),
        final_name(front.push(0x2f) + name) == Some(name),
        final_name(front.push(0x2f)) == final_name(front),
        final_name(front.push(0x2f) + seq![0x2eu8]) == final_name(front),
        final_name(front.push(0x2f) + seq![0x2eu8, 0x2e]) is None,
        final_name(Seq::empty()) is None,
        final_name(seq![0x2eu8]) is None,
        extension_text(front.push(0x2f) + name) == extension_text(name),
{
    let dot = seq![DOT];
    let dots = seq![DOT, DOT];
    final_name_of_plain_name(name);
    let whole = front.push(SLASH) + name;
    behind_last_of(front, name, SLASH);
    assert(whole.skip(front.len() as int + 1) =~= name);
    assert(whole.last() == name[name.len() - 1]);
    assert(front.push(SLASH).drop_last() =~= front);
    let dotted = front.push(SLASH) + dot;
    behind_last_of(front, dot, SLASH);
    assert(dotted.skip(front.len() as int + 1) =~= dot);
    assert(dotted.take(front.len() as int + 1) =~= front.push(SLASH));
    assert(dotted.last() == DOT);
    assert(final_name(dotted) == final_name(front.push(SLASH)));
    let doubled = front.push(SLASH) + dots;
    behind_last_of(front, dots, SLASH);
    assert(doubled.skip(front.len() as int + 1) =~= dots);
    assert(doubled.last() == DOT);
    assert(dots != dot) by {
        assert(dots.len() == 2 && dot.len() == 1);
    }
    behind_last_of_none(dot, SLASH);
    assert(dot.skip(0) =~= dot);
}

/// The extension is what follows the final dot, whatever dots come before. The
/// one name of this form that has none is `..`, which is no file's.
pub proof fn the_extension_follows_the_final_dot(stem: Seq<u8>, extension: Seq<u8>)
    requires
        stem.len() > 0,
        is_free_of(stem, SLASH),
        is_free_of(extension, SLASH),
        is_free_of(extension, DOT),
        !(stem == seq![DOT] && extension.len() == 0),
    ensures
        extension_bytes(stem.push(DOT) + extension) == Some(extension),
        lossy_utf8(extension).len() > 0 ==> extension_text(stem.push(DOT) + extension)
            == lossy_utf8(extension),
        lossy_utf8(extension).len() == 0 ==> extension_text(stem.push(DOT) + extension)
            == "<none>"@,
{
    let name = stem.push(DOT) + extension;
    assert forall|i: int| 0 <= i < name.len() implies #[trigger] name[i] != SLASH by {
        if i < stem.len() {
            assert(name[i] == stem[i]);
        } else if i > stem.len() {
            assert(name[i] == extension[i - stem.len() - 1]);
        }
    }
    if name == seq![DOT, DOT] {
        assert(stem.len() == 1);
        assert(stem[0] == name[0]);
        assert(stem =~= seq![DOT]);
    }
    assert(name.len() >= 2);
    final_name_of_plain_name(name);
    behind_last_of(stem, extension, DOT);
    assert(name.skip(stem.len() as int + 1) =~= extension);
}

/// A file whose only dot comes first, such as `.gitignore`, has no extension.
pub proof fn dotfiles_have_no_extension(rest: Seq<u8>)
    requires
        is_free_of(rest, SLASH),
        is_free_of(rest, DOT),
    ensures
        extension_bytes(seq![DOT] + rest) is None,
        extension_text(seq![DOT] + rest) == "<none>"@,
{
    let name = seq![DOT] + rest;
    assert forall|i: int| 0 <= i < name.len() implies #[trigger] name[i] != SLASH by {
        if i > 0 {
            assert(name[i] == rest[i - 1]);
        }
    }
    behind_last_of_none(name, SLASH);
    assert(name.last() == name[name.len() - 1]);
    assert(name.skip(0) =~= name);
    if name == seq![DOT, DOT] {
        assert(rest[0] == name[1]);
    }
    behind_last_of(Seq::empty(), rest, DOT);
    assert(Seq::<u8>::empty().push(DOT) + rest =~= name);
}

/// A name without a dot has no extension.
pub proof fn names_without_a_dot_have_no_extension(name: Seq<u8>)
    requires
        is_free_of(name, SLASH),
        is_free_of(name, DOT),
    ensures
        extension_bytes(name) is None,
        extension_text(name) == "<none>"@,
{
    if name.len() > 0 {
        behind_last_of_none(name, SLASH);
        behind_last_of_none(name, DOT);
        assert(name.last() == name[name.len() - 1]);
        assert(name.skip(0) =~= name);
        if name == seq![DOT] || name == seq![DOT, DOT] {
            assert(name[0] == DOT);
        }
    }
}

} // verus!
