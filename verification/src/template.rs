//! Resolved paths and destination planning.
//!
//! A [`Template`] is the decomposition of an absolute, canonicalized path
//! into the parent directory and the final name. The planner enumerates
//! candidate names derived from the template's name and an
//! [`Extension`](crate::extension::Extension), and picks the first one that
//! is free in the directory.
//!
//! The filesystem itself never appears here: the caller canonicalizes the
//! path into [`PathComponent`]s and snapshots the directory's names, and the
//! planner works on those values alone. This makes the search deterministic
//! and provable; the documented race with concurrent actors lives entirely
//! in the unverified shell that applies the plan.

use vstd::prelude::*;

use crate::digits::padded;
use crate::digits::spec_padded;
use crate::error::Error;
use crate::extension::lemma_placeholder_pos_from;
use crate::extension::placeholder_at;
use crate::extension::placeholder_check;
use crate::extension::placeholder_len;
use crate::extension::placeholder_offset;
use crate::extension::placeholder_pos;
use crate::extension::placeholder0_at;
use crate::extension::placeholder1_at;
use crate::extension::Extension;
use crate::extension::ExtensionModel;
use crate::extension::RBRACE;

verus! {

/// ASCII `.`, the separator between a name's stem and its extension.
pub const PERIOD: u8 = 0x2e;

/// One component of a path, after canonicalization.
#[derive(Debug, PartialEq, Eq)]
pub enum PathComponent {
    /// The root directory.
    RootDir,
    /// A `.` reference to the current directory.
    CurDir,
    /// A `..` reference to the parent directory.
    ParentDir,
    /// An ordinary named component, as bytes.
    Normal(Vec<u8>),
}

/// The ghost value of a [`PathComponent`].
pub enum SpecComponent {
    /// The root directory.
    RootDir,
    /// A `.` reference to the current directory.
    CurDir,
    /// A `..` reference to the parent directory.
    ParentDir,
    /// An ordinary named component.
    Normal(Seq<u8>),
}

impl View for PathComponent {
    type V = SpecComponent;

    open spec fn view(&self) -> SpecComponent {
        match self {
            PathComponent::RootDir => SpecComponent::RootDir,
            PathComponent::CurDir => SpecComponent::CurDir,
            PathComponent::ParentDir => SpecComponent::ParentDir,
            PathComponent::Normal(name) => SpecComponent::Normal(name@),
        }
    }
}

impl DeepView for PathComponent {
    type V = SpecComponent;

    open spec fn deep_view(&self) -> SpecComponent {
        self.view()
    }
}

impl Clone for PathComponent {
    /// Clones the component, preserving its ghost value.
    fn clone(&self) -> (r: Self)
        ensures
            r@ == self@,
    {
        match self {
            PathComponent::RootDir => PathComponent::RootDir,
            PathComponent::CurDir => PathComponent::CurDir,
            PathComponent::ParentDir => PathComponent::ParentDir,
            PathComponent::Normal(name) => PathComponent::Normal(copy_bytes(name)),
        }
    }
}

/// Copies a byte vector.
pub(crate) fn copy_bytes(src: &Vec<u8>) -> (r: Vec<u8>)
    ensures
        r@ == src@,
{
    let mut r: Vec<u8> = Vec::new();
    let mut i: usize = 0;
    while i < src.len()
        invariant
            i <= src@.len(),
            r@ =~= src@.take(i as int),
        decreases src@.len() - i,
    {
        r.push(src[i]);
        assert(r@ =~= src@.take(i as int + 1));
        i = i + 1;
    }
    assert(src@.take(src@.len() as int) =~= src@);
    r
}

/// Compares two byte vectors for equality.
pub(crate) fn bytes_eq(a: &Vec<u8>, b: &Vec<u8>) -> (r: bool)
    ensures
        r == (a@ == b@),
{
    if a.len() != b.len() {
        return false;
    }
    let mut i: usize = 0;
    while i < a.len()
        invariant
            i <= a@.len(),
            a@.len() == b@.len(),
            forall|j: int| 0 <= j < i ==> a@[j] == b@[j],
        decreases a@.len() - i,
    {
        if a[i] != b[i] {
            return false;
        }
        i = i + 1;
    }
    assert(a@ =~= b@);
    true
}

/// Whether `name` is one of the names in the directory snapshot `occ`.
pub open spec fn has_name(occ: Seq<Vec<u8>>, name: Seq<u8>) -> bool {
    exists|j: int| 0 <= j < occ.len() && occ[j]@ == name
}

/// Reports whether `name` is one of the names in `occupied`.
pub(crate) fn contains_name(occupied: &Vec<Vec<u8>>, name: &Vec<u8>) -> (r: bool)
    ensures
        r == has_name(occupied@, name@),
{
    let mut i: usize = 0;
    while i < occupied.len()
        invariant
            i <= occupied@.len(),
            forall|j: int| 0 <= j < i ==> occupied@[j]@ != name@,
        decreases occupied@.len() - i,
    {
        if bytes_eq(&occupied[i], name) {
            assert(occupied@[i as int]@ == name@);
            return true;
        }
        i = i + 1;
    }
    false
}

/// Copies the first `k` components of `src`.
pub(crate) fn copy_components_prefix(src: &Vec<PathComponent>, k: usize) -> (r: Vec<
    PathComponent,
>)
    requires
        k <= src@.len(),
    ensures
        r.deep_view() == src.deep_view().take(k as int),
{
    let mut r: Vec<PathComponent> = Vec::new();
    let mut i: usize = 0;
    while i < k
        invariant
            i <= k <= src@.len(),
            r@.len() == i,
            r.deep_view() =~= src.deep_view().take(i as int),
        decreases k - i,
    {
        let ghost prev = r@;
        let ghost prevdv = r.deep_view();
        let c = src[i].clone();
        r.push(c);
        proof {
            let dv = r.deep_view();
            let sd = src.deep_view();
            assert forall|j: int| 0 <= j < dv.len() implies dv[j] == sd.take(i as int + 1)[j] by {
                assert(dv[j] == r@[j].deep_view());
                assert(sd[j] == src@[j].deep_view());
                if j < i {
                    assert(r@[j] == prev[j]);
                    assert(prevdv[j] == prev[j].deep_view());
                }
            }
            assert(dv =~= sd.take(i as int + 1));
        }
        i = i + 1;
    }
    assert(r.deep_view() == src.deep_view().take(k as int));
    r
}

/// How resolving a canonicalized component sequence fails, if it does: a
/// single component is the filesystem root, which has no parent and no
/// ordinary name, and a final component other than an ordinary name cannot
/// be renamed.
pub open spec fn spec_resolve_err(p: Seq<SpecComponent>) -> Option<Error>
    recommends
        p.len() >= 1,
{
    if p.len() == 1 {
        Some(Error::Root)
    } else if !(p.last() is Normal) {
        Some(Error::UnexpectedFinalPathComponent)
    } else {
        None
    }
}

/// The final name of a resolvable component sequence.
pub open spec fn spec_filename(p: Seq<SpecComponent>) -> Seq<u8>
    recommends
        p.len() >= 1,
        p.last() is Normal,
{
    p.last()->Normal_0
}

/// An absolute, canonicalized path decomposed into parent directory and
/// final name.
#[derive(Debug, PartialEq, Eq)]
pub struct Template {
    /// The canonicalized source path.
    pub source: Vec<PathComponent>,
    /// All components of `source` but the last.
    pub directory: Vec<PathComponent>,
    /// The final component of `source`, an ordinary name.
    pub filename: Vec<u8>,
}

impl Template {
    /// The decomposition invariant: the directory joined with the name is
    /// the source, and the directory is not empty.
    pub open spec fn wf(&self) -> bool {
        &&& self.directory.deep_view().len() >= 1
        &&& self.source.deep_view() == self.directory.deep_view().push(
            SpecComponent::Normal(self.filename@),
        )
    }

    /// Decomposes a canonicalized path into directory and final name.
    ///
    /// A path of a single component is the filesystem root and is rejected
    /// with [`Error::Root`]; a final component that is not an ordinary name
    /// is rejected with [`Error::UnexpectedFinalPathComponent`].
    pub fn new(path: Vec<PathComponent>) -> (r: Result<Template, Error>)
        requires
            path.deep_view().len() >= 1,
        ensures
            match r {
                Ok(t) => {
                    &&& spec_resolve_err(path.deep_view()) is None
                    &&& t.wf()
                    &&& t.source.deep_view() == path.deep_view()
                    &&& t.directory.deep_view() == path.deep_view().drop_last()
                    &&& t.filename@ == spec_filename(path.deep_view())
                },
                Err(e) => spec_resolve_err(path.deep_view()) == Some(e),
            },
    {
        if path.len() == 1 {
            return Err(Error::Root);
        }
        let filename = match &path[path.len() - 1] {
            PathComponent::Normal(name) => copy_bytes(name),
            _ => {
                return Err(Error::UnexpectedFinalPathComponent);
            },
        };
        let directory = copy_components_prefix(&path, path.len() - 1);
        assert(path.deep_view().take(path.deep_view().len() - 1) =~= path.deep_view().drop_last());
        let t = Template { source: path, directory, filename };
        proof {
            assert(t.source.deep_view() =~= t.directory.deep_view().push(
                SpecComponent::Normal(t.filename@),
            ));
        }
        Ok(t)
    }

    /// The canonicalized source path this template was resolved from.
    pub fn source(&self) -> (r: &Vec<PathComponent>)
        ensures
            *r == self.source,
    {
        &self.source
    }

    /// The candidate name for index `n`: the extension text expanded for `n`
    /// replaces the name's extension (or is appended when the name has
    /// none).
    pub fn make_candidate_for_n(&self, extension: &Extension, n: u64) -> (r: Vec<u8>)
        requires
            n < u64::MAX,
        ensures
            r@ == spec_candidate(self.filename@, extension@, n as nat),
    {
        let text = ext_text(extension, n);
        set_extension(&self.filename, &text)
    }
}

/// The position of the rightmost period of `name` that does not stand at
/// position 0, or `-1` when there is none. Everything before it is the
/// name's stem; a name whose only period leads (a hidden file) has no
/// extension of its own.
pub open spec fn spec_last_dot(name: Seq<u8>) -> int
    decreases name.len(),
{
    if name.len() <= 1 {
        -1
    } else if name[name.len() - 1] == PERIOD {
        name.len() - 1
    } else {
        spec_last_dot(name.drop_last())
    }
}

/// The stem of `name`: the part before the extension separator, or the whole
/// name when there is no separator.
pub open spec fn spec_stem(name: Seq<u8>) -> Seq<u8> {
    if spec_last_dot(name) >= 0 {
        name.take(spec_last_dot(name))
    } else {
        name
    }
}

/// Replaces the extension of `name` with `ext`: the stem, then a period and
/// `ext`; an empty `ext` leaves the bare stem, with no trailing period.
pub open spec fn spec_set_extension(name: Seq<u8>, ext: Seq<u8>) -> Seq<u8> {
    if ext.len() == 0 {
        spec_stem(name)
    } else {
        spec_stem(name) + seq![PERIOD] + ext
    }
}

/// A period followed by `k` rendered in decimal, zero-padded to width `w`.
pub open spec fn spec_dotted(k: nat, w: nat) -> Seq<u8> {
    seq![PERIOD] + spec_padded(k, w)
}

/// The extension text with the placeholder at `i` replaced by `rep`.
pub open spec fn spec_expand(s: Seq<u8>, i: int, rep: Seq<u8>) -> Seq<u8>
    recommends
        placeholder_at(s, i),
{
    s.take(i) + rep + s.skip(i + placeholder_len(s, i) as int)
}

/// The extension text expanded for candidate index `n`.
///
/// A literal extension is used as-is for the bare candidate (`n == 0`) and
/// gets `.` and the number `n - 1` appended for the others. A template
/// extension has its one placeholder replaced: for the bare candidate by
/// nothing (or a lone period, when a leading period is configured), and
/// otherwise by a period and the number the placeholder displays for `n`.
pub open spec fn spec_ext_text(e: ExtensionModel, n: nat) -> Seq<u8> {
    if e.is_template() {
        let i = placeholder_pos(e.inner);
        let rep = if n == 0 {
            if e.n_prepend_period {
                seq![PERIOD]
            } else {
                Seq::<u8>::empty()
            }
        } else {
            spec_dotted(placeholder_offset(e.inner, i, n), e.n_pad)
        };
        spec_expand(e.inner, i, rep)
    } else {
        if n == 0 {
            e.inner
        } else {
            e.inner + spec_dotted((n - 1) as nat, e.n_pad)
        }
    }
}

/// The candidate name for index `n`: the expanded extension text set onto
/// the file name.
pub open spec fn spec_candidate(filename: Seq<u8>, e: ExtensionModel, n: nat) -> Seq<u8> {
    spec_set_extension(filename, spec_ext_text(e, n))
}

/// What the last-dot scan finds: a period at an index of at least 1 with no
/// period after it, or nothing, in which case no index of at least 1 holds
/// a period.
pub proof fn lemma_last_dot(name: Seq<u8>)
    ensures
        spec_last_dot(name) == -1 || spec_last_dot(name) >= 1,
        spec_last_dot(name) == -1 ==> forall|j: int| 1 <= j < name.len() ==> name[j] != PERIOD,
        spec_last_dot(name) >= 0 ==> 1 <= spec_last_dot(name) < name.len() && name[spec_last_dot(
            name,
        )] == PERIOD,
        forall|j: int| spec_last_dot(name) < j < name.len() && j >= 1 ==> name[j] != PERIOD,
    decreases name.len(),
{
    if name.len() > 1 && name[name.len() - 1] != PERIOD {
        let sub = name.drop_last();
        lemma_last_dot(sub);
        assert forall|j: int|
            spec_last_dot(name) < j < name.len() && j >= 1 implies name[j] != PERIOD by {
            if j < name.len() - 1 {
                assert(sub[j] == name[j]);
            }
        }
        assert(spec_last_dot(name) == -1 ==> forall|j: int|
            1 <= j < name.len() ==> name[j] != PERIOD);
        if spec_last_dot(name) >= 0 {
            assert(sub[spec_last_dot(sub)] == name[spec_last_dot(name)]);
        }
    }
}

/// A period at index `i >= 1` with no period after it is what the last-dot
/// scan returns.
pub proof fn lemma_last_dot_is(name: Seq<u8>, i: int)
    requires
        1 <= i < name.len(),
        name[i] == PERIOD,
        forall|j: int| i < j < name.len() ==> name[j] != PERIOD,
    ensures
        spec_last_dot(name) == i,
    decreases name.len(),
{
    if i < name.len() - 1 {
        let sub = name.drop_last();
        assert(sub[i] == name[i]);
        assert forall|j: int| i < j < sub.len() implies sub[j] != PERIOD by {
            assert(sub[j] == name[j]);
        }
        lemma_last_dot_is(sub, i);
    }
}

/// Finds the position of the name's extension separator, if any.
pub(crate) fn find_last_dot(name: &Vec<u8>) -> (r: Option<usize>)
    ensures
        match r {
            Some(i) => spec_last_dot(name@) == i as int,
            None => spec_last_dot(name@) == -1,
        },
{
    let mut i: usize = name.len();
    while i > 1
        invariant
            i <= name@.len(),
            forall|j: int| i <= j < name@.len() ==> name@[j] != PERIOD,
        decreases i,
    {
        if name[i - 1] == PERIOD {
            proof {
                lemma_last_dot_is(name@, i - 1);
            }
            return Some(i - 1);
        }
        i = i - 1;
    }
    proof {
        lemma_last_dot(name@);
        if spec_last_dot(name@) >= 0 {
            assert(name@[spec_last_dot(name@)] == PERIOD);
        }
    }
    None
}

/// Appends all of `src` to `dst`.
pub(crate) fn extend_bytes(dst: &mut Vec<u8>, src: &Vec<u8>)
    ensures
        final(dst)@ == old(dst)@ + src@,
{
    let mut i: usize = 0;
    while i < src.len()
        invariant
            i <= src@.len(),
            dst@ =~= old(dst)@ + src@.take(i as int),
        decreases src@.len() - i,
    {
        dst.push(src[i]);
        assert(dst@ =~= old(dst)@ + src@.take(i as int + 1));
        i = i + 1;
    }
    assert(dst@ =~= old(dst)@ + src@);
}

/// Copies `src[a..b]`.
pub(crate) fn copy_byte_range(src: &Vec<u8>, a: usize, b: usize) -> (r: Vec<u8>)
    requires
        a <= b <= src@.len(),
    ensures
        r@ == src@.subrange(a as int, b as int),
{
    let mut r: Vec<u8> = Vec::new();
    let mut i: usize = a;
    while i < b
        invariant
            a <= i <= b <= src@.len(),
            r@ =~= src@.subrange(a as int, i as int),
        decreases b - i,
    {
        r.push(src[i]);
        assert(r@ =~= src@.subrange(a as int, i as int + 1));
        i = i + 1;
    }
    r
}

/// Builds a period followed by `k`, zero-padded to width `w`.
pub(crate) fn dotted(k: u64, w: u8) -> (r: Vec<u8>)
    ensures
        r@ == spec_dotted(k as nat, w as nat),
{
    let mut r: Vec<u8> = Vec::new();
    r.push(PERIOD);
    let digits = padded(k, w);
    assert(r@ =~= seq![PERIOD]);
    extend_bytes(&mut r, &digits);
    r
}

/// Replaces the extension of `name` with `ext`.
pub(crate) fn set_extension(name: &Vec<u8>, ext: &Vec<u8>) -> (r: Vec<u8>)
    ensures
        r@ == spec_set_extension(name@, ext@),
{
    proof {
        lemma_last_dot(name@);
    }
    let stem_len = match find_last_dot(name) {
        Some(i) => i,
        None => name.len(),
    };
    let mut r = copy_byte_range(name, 0, stem_len);
    assert(r@ == spec_stem(name@));
    if ext.len() > 0 {
        r.push(PERIOD);
        assert(r@ =~= spec_stem(name@) + seq![PERIOD]);
        extend_bytes(&mut r, ext);
        assert(r@ =~= spec_stem(name@) + seq![PERIOD] + ext@);
    }
    r
}

/// Cancels a common prefix of two equal concatenations.
proof fn lemma_concat_cancel(a: Seq<u8>, b: Seq<u8>, c: Seq<u8>)
    requires
        a + b == a + c,
    ensures
        b == c,
{
    assert(b =~= (a + b).skip(a.len() as int));
    assert(c =~= (a + c).skip(a.len() as int));
}

/// A dotted number is never shorter than two characters.
proof fn lemma_dotted_len(k: nat, w: nat)
    ensures
        spec_dotted(k, w).len() >= 2,
        spec_dotted(k, w).len() == 1 + spec_padded(k, w).len(),
{
    crate::digits::lemma_digits_len(k);
}

/// Equal dotted numbers of a common width come from equal numbers.
proof fn lemma_dotted_injective(k1: nat, k2: nat, w: nat)
    requires
        spec_dotted(k1, w) == spec_dotted(k2, w),
    ensures
        k1 == k2,
{
    lemma_concat_cancel(seq![PERIOD], spec_padded(k1, w), spec_padded(k2, w));
    crate::digits::lemma_padded_injective(k1, k2, w);
}

/// Distinct candidate indices expand an extension to distinct texts.
proof fn lemma_ext_text_injective(e: ExtensionModel, n: nat, m: nat)
    requires
        n != m,
    ensures
        spec_ext_text(e, n) != spec_ext_text(e, m),
{
    if e.is_template() {
        let s = e.inner;
        let i = placeholder_pos(s);
        lemma_placeholder_pos_from(s, 0);
        assert(placeholder_at(s, i));
        let tn = spec_ext_text(e, n);
        let tm = spec_ext_text(e, m);
        let rn = rep_of(e, n);
        let rm = rep_of(e, m);
        assert(tn == spec_expand(s, i, rn));
        assert(tm == spec_expand(s, i, rm));
        assert(tn.len() == i + rn.len() + (s.len() - i - placeholder_len(s, i)));
        assert(tm.len() == i + rm.len() + (s.len() - i - placeholder_len(s, i)));
        if n == 0 || m == 0 {
            // One replacement is at most a period, the other holds a dotted
            // number of at least two characters, so the lengths differ.
            if n == 0 {
                lemma_dotted_len(placeholder_offset(s, i, m), e.n_pad);
            } else {
                lemma_dotted_len(placeholder_offset(s, i, n), e.n_pad);
            }
            assert(tn.len() != tm.len());
        } else {
            if tn == tm {
                assert(rn.len() == rm.len());
                assert(rn =~= tn.subrange(i, i + rn.len() as int));
                assert(rm =~= tm.subrange(i, i + rm.len() as int));
                lemma_dotted_injective(
                    placeholder_offset(s, i, n),
                    placeholder_offset(s, i, m),
                    e.n_pad,
                );
                assert(placeholder_offset(s, i, n) == placeholder_offset(s, i, m));
                assert(n == m);
            }
        }
    } else {
        if n == 0 || m == 0 {
            if n == 0 {
                lemma_dotted_len((m - 1) as nat, e.n_pad);
            } else {
                lemma_dotted_len((n - 1) as nat, e.n_pad);
            }
            assert(spec_ext_text(e, n).len() != spec_ext_text(e, m).len());
        } else {
            if spec_ext_text(e, n) == spec_ext_text(e, m) {
                lemma_concat_cancel(
                    e.inner,
                    spec_dotted((n - 1) as nat, e.n_pad),
                    spec_dotted((m - 1) as nat, e.n_pad),
                );
                lemma_dotted_injective((n - 1) as nat, (m - 1) as nat, e.n_pad);
            }
        }
    }
}

/// The replacement text used for index `n` of a template extension.
spec fn rep_of(e: ExtensionModel, n: nat) -> Seq<u8> {
    if n == 0 {
        if e.n_prepend_period {
            seq![PERIOD]
        } else {
            Seq::<u8>::empty()
        }
    } else {
        spec_dotted(placeholder_offset(e.inner, placeholder_pos(e.inner), n), e.n_pad)
    }
}

/// Distinct candidate indices yield distinct candidate names: the expanded
/// texts differ, and setting different extensions onto one name gives
/// different names.
pub proof fn lemma_candidate_injective(filename: Seq<u8>, e: ExtensionModel, n: nat, m: nat)
    requires
        n != m,
    ensures
        spec_candidate(filename, e, n) != spec_candidate(filename, e, m),
{
    lemma_ext_text_injective(e, n, m);
    let tn = spec_ext_text(e, n);
    let tm = spec_ext_text(e, m);
    let stem = spec_stem(filename);
    if tn.len() == 0 && tm.len() != 0 {
        assert(spec_candidate(filename, e, n).len() < spec_candidate(filename, e, m).len());
    } else if tn.len() != 0 && tm.len() == 0 {
        assert(spec_candidate(filename, e, m).len() < spec_candidate(filename, e, n).len());
    } else if tn.len() != 0 && tm.len() != 0 {
        if spec_candidate(filename, e, n) == spec_candidate(filename, e, m) {
            lemma_concat_cancel(stem + seq![PERIOD], tn, tm);
            assert(stem + seq![PERIOD] + tn =~= (stem + seq![PERIOD]) + tn);
            assert(stem + seq![PERIOD] + tm =~= (stem + seq![PERIOD]) + tm);
        }
    }
}

/// Appending a name to a directory snapshot adds exactly that name.
pub proof fn lemma_has_name_push(occ: Seq<Vec<u8>>, c: Vec<u8>, x: Seq<u8>)
    ensures
        has_name(occ.push(c), x) <==> (has_name(occ, x) || c@ == x),
{
    if has_name(occ.push(c), x) {
        let j = choose|j: int| 0 <= j < occ.push(c).len() && occ.push(c)[j]@ == x;
        if j < occ.len() {
            assert(occ[j]@ == x);
            assert(has_name(occ, x));
        } else {
            assert(occ.push(c)[j] == c);
        }
    }
    if has_name(occ, x) {
        let j = choose|j: int| 0 <= j < occ.len() && occ[j]@ == x;
        assert(occ.push(c)[j]@ == x);
        assert(has_name(occ.push(c), x));
    }
    if c@ == x {
        assert(occ.push(c)[occ.len() as int]@ == x);
        assert(has_name(occ.push(c), x));
    }
}

/// Removes every entry named `name` from the directory snapshot; all other
/// names stay.
pub(crate) fn remove_name(occupied: &mut Vec<Vec<u8>>, name: &Vec<u8>)
    ensures
        forall|x: Seq<u8>|
            #[trigger] has_name(final(occupied)@, x) <==> (has_name(old(occupied)@, x) && x
                != name@),
        final(occupied)@.len() <= old(occupied)@.len(),
{
    let mut kept: Vec<Vec<u8>> = Vec::new();
    let mut i: usize = 0;
    while i < occupied.len()
        invariant
            i <= occupied@.len(),
            occupied@ == old(occupied)@,
            kept@.len() <= i,
            forall|x: Seq<u8>|
                #[trigger] has_name(kept@, x) <==> (has_name(occupied@.take(i as int), x) && x
                    != name@),
        decreases occupied@.len() - i,
    {
        let ghost prekept = kept@;
        if !bytes_eq(&occupied[i], name) {
            kept.push(copy_bytes(&occupied[i]));
        }
        proof {
            let pre = occupied@.take(i as int);
            let now = occupied@.take(i as int + 1);
            assert(now =~= pre.push(occupied@[i as int]));
            assert forall|x: Seq<u8>|
                #[trigger] has_name(kept@, x) <==> (has_name(now, x) && x != name@) by {
                lemma_has_name_push(pre, occupied@[i as int], x);
                if kept@.len() > prekept.len() {
                    assert(kept@ == prekept.push(kept@.last()));
                    lemma_has_name_push(prekept, kept@.last(), x);
                }
            }
        }
        i = i + 1;
    }
    assert(occupied@.take(occupied@.len() as int) =~= occupied@);
    *occupied = kept;
}

/// `n` is the first candidate index whose name is free in the directory
/// snapshot `occ`.
pub open spec fn is_first_free(
    filename: Seq<u8>,
    e: ExtensionModel,
    occ: Seq<Vec<u8>>,
    n: nat,
) -> bool {
    &&& !has_name(occ, spec_candidate(filename, e, n))
    &&& forall|m: nat| m < n ==> has_name(occ, #[trigger] spec_candidate(filename, e, m))
}

/// The first free candidate index is unique: querying twice against the same
/// snapshot must name the same destination.
pub proof fn lemma_first_free_unique(
    filename: Seq<u8>,
    e: ExtensionModel,
    occ: Seq<Vec<u8>>,
    n1: nat,
    n2: nat,
)
    requires
        is_first_free(filename, e, occ, n1),
        is_first_free(filename, e, occ, n2),
    ensures
        n1 == n2,
{
    if n1 < n2 {
        assert(has_name(occ, spec_candidate(filename, e, n1)));
    }
    if n2 < n1 {
        assert(has_name(occ, spec_candidate(filename, e, n2)));
    }
}

/// Among the first `k + 1` candidates, at least one name is missing from any
/// set of at most `k` names, because distinct indices give distinct names.
proof fn lemma_free_candidate_from_set(filename: Seq<u8>, e: ExtensionModel, s: Set<Seq<u8>>, k: nat)
    requires
        s.finite(),
        s.len() <= k,
    ensures
        exists|n: nat| n <= k && !s.contains(#[trigger] spec_candidate(filename, e, n)),
    decreases k,
{
    broadcast use vstd::set::group_set_axioms;

    if s.contains(spec_candidate(filename, e, k)) {
        let s2 = s.remove(spec_candidate(filename, e, k));
        assert(s2.len() == s.len() - 1);
        lemma_free_candidate_from_set(filename, e, s2, (k - 1) as nat);
        let n = choose|n: nat| n <= k - 1 && !s2.contains(#[trigger] spec_candidate(filename, e, n));
        lemma_candidate_injective(filename, e, n, k);
        assert(!s.contains(spec_candidate(filename, e, n)));
    }
}

/// Some candidate with index at most the number of names in the directory is
/// free there.
pub proof fn lemma_free_candidate_exists(filename: Seq<u8>, e: ExtensionModel, occ: Seq<Vec<u8>>)
    ensures
        exists|n: nat| n <= occ.len() && !has_name(occ, #[trigger] spec_candidate(filename, e, n)),
{
    broadcast use vstd::set::group_set_axioms;
    broadcast use vstd::seq_lib::seq_to_set_is_finite;

    let names = occ.map_values(|v: Vec<u8>| v@);
    names.lemma_cardinality_of_set();
    lemma_free_candidate_from_set(filename, e, names.to_set(), occ.len());
    let n = choose|n: nat|
        n <= occ.len() && !names.to_set().contains(#[trigger] spec_candidate(filename, e, n));
    let c = spec_candidate(filename, e, n);
    assert(!has_name(occ, c)) by {
        if has_name(occ, c) {
            let j = choose|j: int| 0 <= j < occ.len() && occ[j]@ == c;
            assert(names[j] == c);
            assert(names.contains(c));
            assert(names.to_set().contains(c));
        }
    }
}

/// Expands the extension text for candidate index `n`.
pub(crate) fn ext_text(extension: &Extension, n: u64) -> (r: Vec<u8>)
    requires
        n < u64::MAX,
    ensures
        r@ == spec_ext_text(extension@, n as nat),
{
    if extension.is_format_str() {
        let s = &extension.inner;
        let slen = s.len();
        let ghost pos = placeholder_pos(s@);
        proof {
            lemma_placeholder_pos_from(s@, 0);
        }
        let mut i: usize = 0;
        loop
            invariant
                0 <= i <= pos,
                pos < s@.len(),
                s@.len() == slen,
                placeholder_at(s@, pos),
                s@ == extension@.inner,
                forall|j: int| 0 <= j < pos ==> !placeholder_at(s@, j),
            ensures
                i == pos,
                s@.len() == slen,
            decreases pos - i,
        {
            if placeholder_check(s, i) {
                assert(i == pos);
                break ;
            }
            i = i + 1;
        }
        // The placeholder's spelling decides its length and the displayed
        // number.
        let ph_len: usize = if s[i + 1] == RBRACE {
            assert(placeholder0_at(s@, i as int));
            2
        } else if s[i + 2] == RBRACE {
            assert(placeholder1_at(s@, i as int));
            3
        } else {
            4
        };
        assert(ph_len == placeholder_len(s@, i as int));
        let rep: Vec<u8> = if n == 0 {
            if extension.n_prepend_period {
                let mut v: Vec<u8> = Vec::new();
                v.push(PERIOD);
                assert(v@ =~= seq![PERIOD]);
                v
            } else {
                Vec::new()
            }
        } else {
            let offset: u64 = if ph_len == 2 {
                n - 1
            } else if ph_len == 3 {
                n
            } else {
                n + 1
            };
            assert(offset as nat == placeholder_offset(s@, i as int, n as nat));
            dotted(offset, extension.n_pad)
        };
        let mut r = copy_byte_range(s, 0, i);
        extend_bytes(&mut r, &rep);
        let tail = copy_byte_range(s, i + ph_len, s.len());
        extend_bytes(&mut r, &tail);
        proof {
            assert(s@.subrange(0, i as int) =~= s@.take(i as int));
            assert(s@.subrange(i + ph_len, s@.len() as int) =~= s@.skip(
                i + placeholder_len(s@, i as int) as int,
            ));
            assert(r@ =~= spec_ext_text(extension@, n as nat));
        }
        r
    } else {
        let mut r = copy_bytes(&extension.inner);
        if n > 0 {
            let d = dotted(n - 1, extension.n_pad);
            extend_bytes(&mut r, &d);
        }
        r
    }
}

impl Template {
    /// Plans where the source would be moved, given the names currently in
    /// its directory: the first candidate name that is free there, joined
    /// onto the directory.
    ///
    /// The search tries indices 0, 1, 2, ... in order and returns the first
    /// free name; it always terminates, since distinct indices give distinct
    /// names and the directory holds finitely many.
    pub fn destination(&self, extension: &Extension, occupied: &Vec<Vec<u8>>) -> (dest: Vec<
        PathComponent,
    >)
        requires
            occupied@.len() < usize::MAX,
        ensures
            exists|n: nat|
                #[trigger] is_first_free(self.filename@, extension@, occupied@, n)
                    && dest.deep_view() == self.directory.deep_view().push(
                    SpecComponent::Normal(spec_candidate(self.filename@, extension@, n)),
                ),
    {
        proof {
            lemma_free_candidate_exists(self.filename@, extension@, occupied@);
        }
        let ghost nfree = choose|k: nat|
            k <= occupied@.len() && !has_name(
                occupied@,
                #[trigger] spec_candidate(self.filename@, extension@, k),
            );
        let mut n: usize = 0;
        let mut cand = self.make_candidate_for_n(extension, 0);
        while contains_name(occupied, &cand)
            invariant
                n <= nfree <= occupied@.len() < usize::MAX,
                cand@ == spec_candidate(self.filename@, extension@, n as nat),
                !has_name(occupied@, spec_candidate(self.filename@, extension@, nfree)),
                forall|m: nat|
                    m < n ==> has_name(
                        occupied@,
                        #[trigger] spec_candidate(self.filename@, extension@, m),
                    ),
            decreases nfree - n,
        {
            n = n + 1;
            cand = self.make_candidate_for_n(extension, n as u64);
        }
        proof {
            assert(is_first_free(self.filename@, extension@, occupied@, n as nat));
        }
        let mut dest = copy_components_prefix(&self.directory, self.directory.len());
        proof {
            assert(self.directory.deep_view().take(self.directory.deep_view().len() as int)
                =~= self.directory.deep_view());
        }
        let ghost prev = dest@;
        let ghost prevdv = dest.deep_view();
        dest.push(PathComponent::Normal(cand));
        proof {
            let dv = dest.deep_view();
            let dd = self.directory.deep_view();
            let pushed = dd.push(
                SpecComponent::Normal(spec_candidate(self.filename@, extension@, n as nat)),
            );
            assert forall|j: int| 0 <= j < dv.len() implies dv[j] == pushed[j] by {
                assert(dv[j] == dest@[j].deep_view());
                if j < prev.len() {
                    assert(dest@[j] == prev[j]);
                    assert(prevdv[j] == prev[j].deep_view());
                }
            }
            assert(dv =~= pushed);
        }
        dest
    }
}

/// Extracts the final name of a path whose last component is known to be an
/// ordinary name.
pub(crate) fn last_normal_name(p: &Vec<PathComponent>) -> (r: Vec<u8>)
    requires
        p.deep_view().len() >= 1,
        p.deep_view().last() is Normal,
    ensures
        r@ == p.deep_view().last()->Normal_0,
{
    proof {
        assert(p.deep_view()[p@.len() - 1] == p@[p@.len() - 1].deep_view());
    }
    match &p[p.len() - 1] {
        PathComponent::Normal(name) => copy_bytes(name),
        _ => Vec::new(),
    }
}

/// With a literal extension and no pre-existing conflict, the planned
/// destination is exactly the source name with the extension set onto it:
/// candidate index 0 is already free.
pub proof fn lemma_literal_no_conflict(filename: Seq<u8>, text: Seq<u8>, occ: Seq<Vec<u8>>)
    requires
        !has_name(occ, spec_set_extension(filename, text)),
    ensures
        is_first_free(filename, crate::extension::spec_plain_extension(text), occ, 0),
        spec_candidate(filename, crate::extension::spec_plain_extension(text), 0)
            == spec_set_extension(filename, text),
{
}

/// With a literal extension and conflicts at exactly the candidate indices
/// `0 .. k`, the planned destination is the candidate for index `k`, whose
/// name carries the displayed number `k - 1` appended after a period.
pub proof fn lemma_literal_first_free_index(
    filename: Seq<u8>,
    text: Seq<u8>,
    occ: Seq<Vec<u8>>,
    k: nat,
)
    requires
        k >= 1,
        forall|m: nat|
            m < k ==> has_name(
                occ,
                #[trigger] spec_candidate(filename, crate::extension::spec_plain_extension(text), m),
            ),
        !has_name(occ, spec_candidate(filename, crate::extension::spec_plain_extension(text), k)),
    ensures
        is_first_free(filename, crate::extension::spec_plain_extension(text), occ, k),
        spec_candidate(filename, crate::extension::spec_plain_extension(text), k)
            == spec_set_extension(filename, text + spec_dotted((k - 1) as nat, 0)),
{
}

/// For a template extension, the number displayed at the first non-bare
/// candidate (index 1) is 0 for `{}`, 1 for `{+}` and 2 for `{++}`: the
/// spellings shift where the displayed sequence starts, nothing else.
pub proof fn lemma_template_first_offsets(e: ExtensionModel)
    requires
        e.is_template(),
    ensures
        placeholder0_at(e.inner, placeholder_pos(e.inner)) ==> spec_ext_text(e, 1) == spec_expand(
            e.inner,
            placeholder_pos(e.inner),
            spec_dotted(0, e.n_pad),
        ),
        placeholder1_at(e.inner, placeholder_pos(e.inner)) ==> spec_ext_text(e, 1) == spec_expand(
            e.inner,
            placeholder_pos(e.inner),
            spec_dotted(1, e.n_pad),
        ),
        placeholder_at(e.inner, placeholder_pos(e.inner)) && !placeholder0_at(
            e.inner,
            placeholder_pos(e.inner),
        ) && !placeholder1_at(e.inner, placeholder_pos(e.inner)) ==> spec_ext_text(e, 1)
            == spec_expand(e.inner, placeholder_pos(e.inner), spec_dotted(2, e.n_pad)),
{
}

} // verus!
