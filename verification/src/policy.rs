//! The policy builder: assembling validated paths and the key registry into
//! an immutable descriptor policy.
//!
//! Every use of a key — across all paths, in processing order: primary path
//! first, then the other paths by ascending time-lock — gets its own
//! derivation index, counting from zero per fingerprint. One physical key
//! placed in two paths (or twice in one) therefore derives two distinct
//! child keys, and no two paths can share an output script.

use vstd::prelude::*;
use crate::keys::KeyRegistry;
use crate::path::Path;
use crate::types::Network;

verus! {

/// One use of a key in the policy: the key's identity and the derivation
/// index assigned to this particular use.
#[derive(Clone, Copy, Debug, PartialEq, Eq, Structural)]
pub struct DerivedKey {
    pub fingerprint: u32,
    pub index: usize,
}

/// The key-set of one path of the finished policy.
#[derive(Clone, Debug)]
pub enum KeySet {
    Single(DerivedKey),
    Multi(usize, Vec<DerivedKey>),
}

/// Mathematical shape of a [`KeySet`].
pub enum KeySetView {
    Single(DerivedKey),
    Multi(int, Seq<DerivedKey>),
}

impl View for KeySet {
    type V = KeySetView;

    open spec fn view(&self) -> KeySetView {
        match self {
            KeySet::Single(k) => KeySetView::Single(*k),
            KeySet::Multi(t, ks) => KeySetView::Multi(*t as int, ks@),
        }
    }
}

/// The finished policy: the primary key-set, the recovery key-sets by
/// ascending time-lock, and the output construction chosen.
#[derive(Clone, Debug)]
pub struct DescriptorPolicy {
    pub network: Network,
    pub alternate: bool,
    pub primary: KeySet,
    pub recovery: Vec<(u16, KeySet)>,
}

/// Mathematical shape of a [`DescriptorPolicy`].
pub struct PolicyView {
    pub network: Network,
    pub alternate: bool,
    pub primary: KeySetView,
    pub recovery: Seq<(u16, KeySetView)>,
}

/// The recovery table, each key-set by its mathematical shape.
pub open spec fn spec_rec_view(rs: Seq<(u16, KeySet)>) -> Seq<(u16, KeySetView)> {
    rs.map_values(|e: (u16, KeySet)| (e.0, e.1@))
}

impl View for DescriptorPolicy {
    type V = PolicyView;

    open spec fn view(&self) -> PolicyView {
        PolicyView {
            network: self.network,
            alternate: self.alternate,
            primary: self.primary@,
            recovery: spec_rec_view(self.recovery@),
        }
    }
}

/// Why the builder refused.
#[derive(Clone, Copy, Debug, PartialEq, Eq, Structural)]
pub enum PolicyError {
    /// Fewer than two paths: a policy needs at least one alternative to the
    /// primary path.
    InsufficientPaths,
    /// The primary path is not valid (some slot empty, threshold out of
    /// range, or a key not capable of the chosen output type).
    EmptyPrimaryPath,
    /// A non-primary path has no slots or an unfilled slot.
    IncompletePath,
    /// A slot references a fingerprint the registry does not know.
    UnknownKey,
}

/// The fingerprints of a path's slots, in slot order. Only meaningful when
/// every slot is filled; an empty slot counts as fingerprint zero.
pub open spec fn spec_path_fps(p: Path) -> Seq<u32> {
    p.slots@.map_values(
        |o: Option<u32>|
            match o {
                Some(fp) => fp,
                None => 0u32,
            },
    )
}

/// Strict order on (time-lock, original position) pairs. Positions are
/// distinct, so this is total on the pairs the builder sorts and the sorted
/// sequence is unique: equal time-locks keep their original order.
pub open spec fn spec_pair_lt(a: (u16, usize), b: (u16, usize)) -> bool {
    a.0 < b.0 || (a.0 == b.0 && a.1 < b.1)
}

pub open spec fn spec_insert_pair(x: (u16, usize), s: Seq<(u16, usize)>) -> Seq<(u16, usize)>
    decreases s.len(),
{
    if s.len() == 0 {
        seq![x]
    } else if spec_pair_lt(s[0], x) {
        seq![s[0]] + spec_insert_pair(x, s.skip(1))
    } else {
        seq![x] + s
    }
}

pub open spec fn spec_sort_pairs(s: Seq<(u16, usize)>) -> Seq<(u16, usize)>
    decreases s.len(),
{
    if s.len() == 0 {
        Seq::empty()
    } else {
        spec_insert_pair(s[0], spec_sort_pairs(s.skip(1)))
    }
}

/// The (time-lock, position) pairs of the non-primary paths.
pub open spec fn spec_tail_pairs(paths: Seq<Path>) -> Seq<(u16, usize)> {
    Seq::new((paths.len() - 1) as nat, |i: int| (paths[i + 1].sequence.spec_as_u16(), (i
        + 1) as usize))
}

/// The non-primary paths' positions by ascending time-lock, ties kept in
/// original order.
pub open spec fn spec_tail_order(paths: Seq<Path>) -> Seq<usize> {
    spec_sort_pairs(spec_tail_pairs(paths)).map_values(|p: (u16, usize)| p.1)
}

/// The order the builder processes paths in: the primary path first, then
/// the others by ascending time-lock.
pub open spec fn spec_order(paths: Seq<Path>) -> Seq<usize> {
    seq![0usize] + spec_tail_order(paths)
}

/// All slot fingerprints in processing order.
pub open spec fn spec_concat_fps(paths: Seq<Path>, ord: Seq<usize>) -> Seq<u32>
    decreases ord.len(),
{
    if ord.len() == 0 {
        Seq::empty()
    } else {
        spec_path_fps(paths[ord[0] as int]) + spec_concat_fps(paths, ord.skip(1))
    }
}

/// How often `fp` occurs among the first `upto` entries of `g`.
pub open spec fn spec_count_fp(g: Seq<u32>, fp: u32, upto: int) -> int
    decreases upto,
{
    if upto <= 0 {
        0
    } else {
        spec_count_fp(g, fp, upto - 1) + if g[upto - 1] == fp {
            1int
        } else {
            0int
        }
    }
}

/// The derived keys of the path whose `n` slots sit at offset `off` of the
/// processing order `g`: each use's index is the number of earlier uses of
/// the same fingerprint.
pub open spec fn spec_keys_at(g: Seq<u32>, off: int, n: int) -> Seq<DerivedKey> {
    Seq::new(n as nat, |j: int| DerivedKey {
        fingerprint: g[off + j],
        index: spec_count_fp(g, g[off + j], off + j) as usize,
    })
}

/// A single key stands alone; several form a threshold set, slot order kept.
pub open spec fn spec_keyset_at(thresh: int, g: Seq<u32>, off: int, n: int) -> KeySetView {
    if n == 1 {
        KeySetView::Single(spec_keys_at(g, off, n)[0])
    } else {
        KeySetView::Multi(thresh, spec_keys_at(g, off, n))
    }
}

/// Fold the non-primary paths, in processing order, into the time-lock →
/// key-set table. Time-locks arrive in ascending order, so a duplicate can
/// only equal the last entry, which it replaces — the table keeps one entry
/// per time-lock and the later path wins, as inserting into a map would.
pub open spec fn spec_entries(
    paths: Seq<Path>,
    ord: Seq<usize>,
    g: Seq<u32>,
    off: int,
    acc: Seq<(u16, KeySetView)>,
) -> Seq<(u16, KeySetView)>
    decreases ord.len(),
{
    if ord.len() == 0 {
        acc
    } else {
        let p = paths[ord[0] as int];
        let n = p.slots@.len() as int;
        let ks = spec_keyset_at(p.threshold as int, g, off, n);
        let sv = p.sequence.spec_as_u16();
        let acc2 = if acc.len() > 0 && acc.last().0 == sv {
            acc.drop_last().push((sv, ks))
        } else {
            acc.push((sv, ks))
        };
        spec_entries(paths, ord.skip(1), g, off + n, acc2)
    }
}

/// The policy the builder produces from `paths` once all checks passed.
pub open spec fn spec_build_view(
    paths: Seq<Path>,
    use_taproot: bool,
    network: Network,
) -> PolicyView {
    let ord_tail = spec_tail_order(paths);
    let g = spec_concat_fps(paths, spec_order(paths));
    let n0 = paths[0].slots@.len() as int;
    PolicyView {
        network,
        alternate: use_taproot,
        primary: spec_keyset_at(paths[0].threshold as int, g, 0, n0),
        recovery: spec_entries(paths, ord_tail, g, n0, Seq::empty()),
    }
}

/// Some slot of some path holds a key that lives on a hardware device.
pub open spec fn spec_uses_device(paths: Seq<Path>, reg: KeyRegistry) -> bool {
    exists|i: int, j: int|
        0 <= i < paths.len() && 0 <= j < paths[i].slots@.len() && #[trigger] spec_device_at(
            paths,
            reg,
            i,
            j,
        )
}

/// The distinct fingerprints of `g`, each at its first occurrence.
pub open spec fn spec_dedup(g: Seq<u32>) -> Seq<u32>
    decreases g.len(),
{
    if g.len() == 0 {
        Seq::empty()
    } else {
        let rest = spec_dedup(g.drop_last());
        if rest.contains(g.last()) {
            rest
        } else {
            rest.push(g.last())
        }
    }
}

pub proof fn lemma_dedup_contains(g: Seq<u32>, fp: u32)
    ensures
        spec_dedup(g).contains(fp) <==> g.contains(fp),
    decreases g.len(),
{
    if g.len() > 0 {
        lemma_dedup_contains(g.drop_last(), fp);
        let rest = spec_dedup(g.drop_last());
        if g.contains(fp) {
            let i = choose|i: int| 0 <= i < g.len() && g[i] == fp;
            if i < g.len() - 1 {
                assert(g.drop_last()[i] == fp);
                assert(g.drop_last().contains(fp));
            } else {
                assert(g.last() == fp);
                if !rest.contains(fp) {
                    assert(spec_dedup(g) == rest.push(fp));
                    assert(spec_dedup(g).last() == fp);
                    assert(spec_dedup(g).contains(fp));
                }
            }
            if rest.contains(fp) {
                let k = choose|k: int| 0 <= k < rest.len() && #[trigger] rest[k] == fp;
                assert(spec_dedup(g)[k] == fp);
            }
            assert(spec_dedup(g).contains(fp));
        }
        if spec_dedup(g).contains(fp) {
            if rest.contains(fp) {
                let i = choose|i: int|
                    0 <= i < g.drop_last().len() && #[trigger] g.drop_last()[i] == fp;
                assert(g[i] == fp);
                assert(g.contains(fp));
            } else {
                assert(spec_dedup(g) == rest.push(g.last()));
                let i = choose|i: int|
                    0 <= i < spec_dedup(g).len() && #[trigger] spec_dedup(g)[i] == fp;
                if i < rest.len() {
                    assert(rest[i] == fp);
                    assert(rest.contains(fp));
                } else {
                    assert(g.last() == fp);
                    assert(g[g.len() - 1] == fp);
                    assert(g.contains(fp));
                }
            }
        }
    }
}

pub proof fn lemma_count_fp_range(g: Seq<u32>, fp: u32, upto: int)
    requires
        0 <= upto <= g.len(),
    ensures
        0 <= spec_count_fp(g, fp, upto) <= upto,
    decreases upto,
{
    if upto > 0 {
        lemma_count_fp_range(g, fp, upto - 1);
    }
}

/// Counting below `upto` only reads the prefix below `upto`.
pub proof fn lemma_count_fp_prefix(g1: Seq<u32>, g2: Seq<u32>, fp: u32, upto: int)
    requires
        0 <= upto <= g1.len(),
        upto <= g2.len(),
        forall|i: int| 0 <= i < upto ==> g1[i] == g2[i],
    ensures
        spec_count_fp(g1, fp, upto) == spec_count_fp(g2, fp, upto),
    decreases upto,
{
    if upto > 0 {
        lemma_count_fp_prefix(g1, g2, fp, upto - 1);
    }
}

/// A count of zero means the fingerprint is absent from the prefix.
pub proof fn lemma_count_fp_zero(g: Seq<u32>, fp: u32, upto: int)
    requires
        0 <= upto <= g.len(),
    ensures
        spec_count_fp(g, fp, upto) == 0 <==> !g.take(upto).contains(fp),
    decreases upto,
{
    if upto > 0 {
        lemma_count_fp_zero(g, fp, upto - 1);
        lemma_count_fp_range(g, fp, upto - 1);
        if g[upto - 1] == fp {
            assert(g.take(upto)[upto - 1] == fp);
            assert(g.take(upto).contains(fp));
        } else {
            assert forall|i: int| 0 <= i < upto - 1 implies g.take(upto - 1)[i] == g.take(
                upto,
            )[i] by {}
            if g.take(upto).contains(fp) {
                let i = choose|i: int| 0 <= i < upto && #[trigger] g.take(upto)[i] == fp;
                assert(i < upto - 1);
                assert(g.take(upto - 1)[i] == fp);
                assert(g.take(upto - 1).contains(fp));
            }
            if g.take(upto - 1).contains(fp) {
                let i = choose|i: int| 0 <= i < upto - 1 && #[trigger] g.take(upto - 1)[i] == fp;
                assert(g.take(upto)[i] == fp);
                assert(g.take(upto).contains(fp));
            }
        }
    } else {
        assert(g.take(0).len() == 0);
    }
}


/// `paths[i][j]` holds a key that lives on a hardware device.
pub open spec fn spec_device_at(paths: Seq<Path>, reg: KeyRegistry, i: int, j: int) -> bool {
    match paths[i].slots@[j] {
        Some(fp) => match reg.spec_get(fp) {
            Some(k) => k.source.spec_is_device(),
            None => false,
        },
        None => false,
    }
}

/// Every non-primary path has at least one slot and no empty slot.
pub open spec fn spec_tail_complete(paths: Seq<Path>) -> bool {
    forall|i: int|
        1 <= i < paths.len() ==> (#[trigger] paths[i]).slots@.len() >= 1
            && paths[i].spec_all_filled()
}

/// Every filled slot's fingerprint is registered.
pub open spec fn spec_all_known(paths: Seq<Path>, reg: KeyRegistry) -> bool {
    forall|i: int, j: int|
        0 <= i < paths.len() && 0 <= j < paths[i].slots@.len() ==> match #[trigger] paths[i].slots@[j] {
            Some(fp) => reg.spec_get(fp) is Some,
            None => true,
        }
}

/// Everything the builder asks of its input.
pub open spec fn spec_buildable(paths: Seq<Path>, reg: KeyRegistry, use_taproot: bool) -> bool {
    &&& paths.len() >= 2
    &&& paths[0].spec_is_valid(reg, use_taproot)
    &&& spec_tail_complete(paths)
    &&& spec_all_known(paths, reg)
}

fn pair_lt(a: (u16, usize), b: (u16, usize)) -> (r: bool)
    ensures
        r == spec_pair_lt(a, b),
{
    a.0 < b.0 || (a.0 == b.0 && a.1 < b.1)
}

/// Inserting before the first element not below `x` is what
/// `spec_insert_pair` does.
proof fn lemma_insert_pair_at(x: (u16, usize), s: Seq<(u16, usize)>, p: int)
    requires
        0 <= p <= s.len(),
        forall|q: int| 0 <= q < p ==> spec_pair_lt(#[trigger] s[q], x),
        p < s.len() ==> !spec_pair_lt(s[p], x),
    ensures
        spec_insert_pair(x, s) =~= s.insert(p, x),
    decreases p,
{
    if p == 0 {
        if s.len() == 0 {
            assert(spec_insert_pair(x, s) =~= s.insert(0, x));
        } else {
            assert(!spec_pair_lt(s[0], x));
            assert(spec_insert_pair(x, s) =~= s.insert(0, x));
        }
    } else {
        assert(spec_pair_lt(s[0], x));
        lemma_insert_pair_at(x, s.skip(1), p - 1);
        assert(spec_insert_pair(x, s) == seq![s[0]] + spec_insert_pair(x, s.skip(1)));
        assert(spec_insert_pair(x, s) =~= s.insert(p, x));
    }
}

proof fn lemma_insert_pair_elems(x: (u16, usize), s: Seq<(u16, usize)>)
    ensures
        forall|k: int|
            0 <= k < spec_insert_pair(x, s).len() ==> #[trigger] spec_insert_pair(x, s)[k] == x
                || s.contains(spec_insert_pair(x, s)[k]),
        spec_insert_pair(x, s).len() == s.len() + 1,
    decreases s.len(),
{
    if s.len() == 0 {
    } else if spec_pair_lt(s[0], x) {
        lemma_insert_pair_elems(x, s.skip(1));
        assert forall|k: int|
            0 <= k < spec_insert_pair(x, s).len() implies #[trigger] spec_insert_pair(x, s)[k]
            == x || s.contains(spec_insert_pair(x, s)[k]) by {
            if k == 0 {
                assert(s.contains(s[0]));
            } else {
                let e = spec_insert_pair(x, s)[k];
                assert(e == spec_insert_pair(x, s.skip(1))[k - 1]);
                if e != x {
                    let m = choose|m: int|
                        0 <= m < s.skip(1).len() && #[trigger] s.skip(1)[m] == e;
                    assert(s[m + 1] == e);
                    assert(s.contains(e));
                }
            }
        }
    } else {
        assert forall|k: int|
            0 <= k < spec_insert_pair(x, s).len() implies #[trigger] spec_insert_pair(x, s)[k]
            == x || s.contains(spec_insert_pair(x, s)[k]) by {
            if k > 0 {
                assert(spec_insert_pair(x, s)[k] == s[k - 1]);
                assert(s.contains(s[k - 1]));
            }
        }
    }
}

proof fn lemma_sort_pairs_elems(s: Seq<(u16, usize)>)
    ensures
        forall|k: int|
            0 <= k < spec_sort_pairs(s).len() ==> s.contains(#[trigger] spec_sort_pairs(s)[k]),
        spec_sort_pairs(s).len() == s.len(),
    decreases s.len(),
{
    if s.len() > 0 {
        lemma_sort_pairs_elems(s.skip(1));
        lemma_insert_pair_elems(s[0], spec_sort_pairs(s.skip(1)));
        assert forall|k: int|
            0 <= k < spec_sort_pairs(s).len() implies s.contains(
            #[trigger] spec_sort_pairs(s)[k],
        ) by {
            let e = spec_sort_pairs(s)[k];
            if e == s[0] {
                assert(s.contains(s[0]));
            } else {
                assert(spec_sort_pairs(s.skip(1)).contains(e));
                let m = choose|m: int|
                    0 <= m < s.skip(1).len() && #[trigger] s.skip(1)[m] == e;
                assert(s[m + 1] == e);
                assert(s.contains(e));
            }
        }
    }
}

/// Where the next element goes in an already-ordered prefix.
fn find_insert_pos(v: &Vec<(u16, usize)>, x: (u16, usize)) -> (p: usize)
    ensures
        p <= v@.len(),
        forall|q: int| 0 <= q < p ==> spec_pair_lt(#[trigger] v@[q], x),
        p < v@.len() ==> !spec_pair_lt(v@[p as int], x),
{
    let mut p: usize = 0;
    while p < v.len()
        invariant
            p <= v@.len(),
            forall|q: int| 0 <= q < p ==> spec_pair_lt(#[trigger] v@[q], x),
        decreases v@.len() - p,
    {
        if !pair_lt(v[p], x) {
            return p;
        }
        p += 1;
    }
    p
}

/// Stable insertion sort of the (time-lock, position) pairs.
fn sort_pairs(pairs: &Vec<(u16, usize)>) -> (r: Vec<(u16, usize)>)
    ensures
        r@ == spec_sort_pairs(pairs@),
{
    let mut acc: Vec<(u16, usize)> = Vec::new();
    let mut i: usize = pairs.len();
    proof {
        assert(pairs@.skip(i as int) =~= Seq::<(u16, usize)>::empty());
    }
    while i > 0
        invariant
            i <= pairs@.len(),
            acc@ == spec_sort_pairs(pairs@.skip(i as int)),
        decreases i,
    {
        i -= 1;
        let x = pairs[i];
        let p = find_insert_pos(&acc, x);
        let ghost pre = acc@;
        acc.insert(p, x);
        proof {
            lemma_insert_pair_at(x, pre, p as int);
            let su = pairs@.skip(i as int);
            assert(su.len() > 0);
            assert(su[0] == pairs@[i as int]);
            assert(su.skip(1) =~= pairs@.skip(i as int + 1));
            assert(acc@ == spec_insert_pair(x, spec_sort_pairs(su.skip(1))));
        }
    }
    proof {
        assert(pairs@.skip(0) =~= pairs@);
    }
    acc
}

/// Occurrences of `fp` among the first `upto` entries.
fn count_prefix(g: &Vec<u32>, fp: u32, upto: usize) -> (c: usize)
    requires
        upto <= g@.len(),
    ensures
        c as int == spec_count_fp(g@, fp, upto as int),
{
    proof {
        lemma_count_fp_range(g@, fp, upto as int);
    }
    let mut c: usize = 0;
    let mut i: usize = 0;
    while i < upto
        invariant
            i <= upto <= g@.len(),
            c as int == spec_count_fp(g@, fp, i as int),
            c <= i,
        decreases upto - i,
    {
        if g[i] == fp {
            c += 1;
        }
        i += 1;
    }
    c
}

/// One path's contribution to the fingerprint list.
proof fn lemma_concat_single(paths: Seq<Path>, x: usize)
    ensures
        spec_concat_fps(paths, seq![x]) =~= spec_path_fps(paths[x as int]),
{
    assert(seq![x].skip(1) =~= Seq::<usize>::empty());
    assert(spec_concat_fps(paths, Seq::<usize>::empty()) =~= Seq::<u32>::empty());
}

/// Splitting the processing order splits the fingerprint list.
proof fn lemma_concat_split(paths: Seq<Path>, ord: Seq<usize>, k: int)
    requires
        0 <= k <= ord.len(),
    ensures
        spec_concat_fps(paths, ord) =~= spec_concat_fps(paths, ord.take(k)) + spec_concat_fps(
            paths,
            ord.skip(k),
        ),
    decreases k,
{
    if k == 0 {
        assert(ord.take(0) =~= Seq::<usize>::empty());
        assert(ord.skip(0) =~= ord);
    } else {
        assert(ord.len() > 0);
        lemma_concat_split(paths, ord.skip(1), k - 1);
        assert(ord.take(k)[0] == ord[0]);
        assert(ord.take(k).skip(1) =~= ord.skip(1).take(k - 1));
        assert(ord.skip(k) =~= ord.skip(1).skip(k - 1));
        assert(spec_concat_fps(paths, ord.take(k)) == spec_path_fps(paths[ord[0] as int])
            + spec_concat_fps(paths, ord.take(k).skip(1)));
    }
}



/// The recovery table's time-locks come strictly ascending — the table is
/// a mapping.
pub open spec fn spec_recs_ascending(rs: Seq<(u16, KeySetView)>) -> bool {
    forall|i: int, j: int| 0 <= i < j < rs.len() ==> (#[trigger] rs[i]).0 < (#[trigger] rs[j]).0
}

proof fn lemma_insert_pair_sorted(x: (u16, usize), s: Seq<(u16, usize)>)
    requires
        forall|i: int, j: int| 0 <= i < j < s.len() ==> !spec_pair_lt(s[j], s[i]),
    ensures
        forall|i: int, j: int|
            0 <= i < j < spec_insert_pair(x, s).len() ==> !spec_pair_lt(
                spec_insert_pair(x, s)[j],
                spec_insert_pair(x, s)[i],
            ),
    decreases s.len(),
{
    let r = spec_insert_pair(x, s);
    lemma_insert_pair_elems(x, s);
    if s.len() == 0 {
    } else if spec_pair_lt(s[0], x) {
        assert forall|i: int, j: int|
            0 <= i < j < s.skip(1).len() implies !spec_pair_lt(s.skip(1)[j], s.skip(1)[i]) by {
            assert(s.skip(1)[j] == s[j + 1]);
            assert(s.skip(1)[i] == s[i + 1]);
        }
        lemma_insert_pair_sorted(x, s.skip(1));
        let r1 = spec_insert_pair(x, s.skip(1));
        lemma_insert_pair_elems(x, s.skip(1));
        assert forall|i: int, j: int|
            0 <= i < j < r.len() implies !spec_pair_lt(r[j], r[i]) by {
            if i == 0 {
                assert(r[j] == r1[j - 1]);
                if r1[j - 1] == x {
                    assert(!spec_pair_lt(x, s[0]));
                } else {
                    let m = choose|m: int|
                        0 <= m < s.skip(1).len() && #[trigger] s.skip(1)[m] == r1[j - 1];
                    assert(s[m + 1] == r1[j - 1]);
                    assert(!spec_pair_lt(s[m + 1], s[0]));
                }
            } else {
                assert(r[j] == r1[j - 1]);
                assert(r[i] == r1[i - 1]);
            }
        }
    } else {
        assert forall|i: int, j: int|
            0 <= i < j < r.len() implies !spec_pair_lt(r[j], r[i]) by {
            if i == 0 {
                assert(r[0] == x);
                assert(r[j] == s[j - 1]);
                if j - 1 > 0 {
                    assert(!spec_pair_lt(s[j - 1], s[0]));
                }
                assert(!spec_pair_lt(s[0], x));
            } else {
                assert(r[i] == s[i - 1]);
                assert(r[j] == s[j - 1]);
            }
        }
    }
}

proof fn lemma_sort_pairs_sorted(s: Seq<(u16, usize)>)
    ensures
        forall|i: int, j: int|
            0 <= i < j < spec_sort_pairs(s).len() ==> !spec_pair_lt(
                spec_sort_pairs(s)[j],
                spec_sort_pairs(s)[i],
            ),
    decreases s.len(),
{
    if s.len() > 0 {
        lemma_sort_pairs_sorted(s.skip(1));
        lemma_insert_pair_sorted(s[0], spec_sort_pairs(s.skip(1)));
    }
}

/// Folding entries whose time-locks arrive in non-decreasing order, onto
/// an ascending table whose last entry does not exceed the first incoming
/// one, keeps the table strictly ascending.
proof fn lemma_entries_ascending(
    paths: Seq<Path>,
    ord: Seq<usize>,
    g: Seq<u32>,
    off: int,
    acc: Seq<(u16, KeySetView)>,
)
    requires
        forall|a: int, b: int|
            0 <= a < b < ord.len() ==> paths[ord[a] as int].sequence.spec_as_u16()
                <= paths[ord[b] as int].sequence.spec_as_u16(),
        spec_recs_ascending(acc),
        acc.len() > 0 && ord.len() > 0 ==> acc.last().0 <= paths[ord[0] as int].sequence.spec_as_u16(),
    ensures
        spec_recs_ascending(spec_entries(paths, ord, g, off, acc)),
    decreases ord.len(),
{
    if ord.len() > 0 {
        let p = paths[ord[0] as int];
        let n = p.slots@.len() as int;
        let ks = spec_keyset_at(p.threshold as int, g, off, n);
        let sv = p.sequence.spec_as_u16();
        let acc2 = if acc.len() > 0 && acc.last().0 == sv {
            acc.drop_last().push((sv, ks))
        } else {
            acc.push((sv, ks))
        };
        assert(spec_recs_ascending(acc2)) by {
            if acc.len() > 0 && acc.last().0 == sv {
                assert forall|i: int, j: int|
                    0 <= i < j < acc2.len() implies (#[trigger] acc2[i]).0 < (
                #[trigger] acc2[j]).0 by {
                    assert(acc2[i] == acc[i]);
                    if j < acc2.len() - 1 {
                        assert(acc2[j] == acc[j]);
                    } else {
                        assert(acc2[j].0 == acc.last().0);
                        assert(acc[i].0 < acc[acc.len() - 1].0);
                    }
                }
            } else {
                assert forall|i: int, j: int|
                    0 <= i < j < acc2.len() implies (#[trigger] acc2[i]).0 < (
                #[trigger] acc2[j]).0 by {
                    assert(acc2[i] == acc[i]);
                    if j < acc2.len() - 1 {
                        assert(acc2[j] == acc[j]);
                    } else {
                        assert(acc2[j].0 == sv);
                        if acc.len() > 0 {
                            assert(acc[i].0 <= acc[acc.len() - 1].0 || i == acc.len() - 1);
                            assert(acc.last().0 <= sv);
                            assert(acc.last().0 != sv);
                        }
                    }
                }
            }
        }
        assert(acc2.last().0 == sv);
        assert forall|a: int, b: int|
            0 <= a < b < ord.skip(1).len() implies paths[ord.skip(1)[a] as int].sequence.spec_as_u16()
            <= paths[ord.skip(1)[b] as int].sequence.spec_as_u16() by {
            assert(ord.skip(1)[a] == ord[a + 1]);
            assert(ord.skip(1)[b] == ord[b + 1]);
        }
        if ord.skip(1).len() > 0 {
            assert(ord.skip(1)[0] == ord[1]);
            assert(sv <= paths[ord[1] as int].sequence.spec_as_u16());
        }
        lemma_entries_ascending(paths, ord.skip(1), g, off + n, acc2);
    }
}

/// In the built policy the recovery time-locks come strictly ascending:
/// one key-set per time-lock, the table is a mapping.
pub proof fn lemma_build_timelocks_unique(paths: Seq<Path>, use_taproot: bool, network: Network)
    requires
        1 <= paths.len() <= usize::MAX,
    ensures
        spec_recs_ascending(spec_build_view(paths, use_taproot, network).recovery),
{
    let tp = spec_tail_pairs(paths);
    let sorted = spec_sort_pairs(tp);
    let ot = spec_tail_order(paths);
    lemma_sort_pairs_sorted(tp);
    lemma_sort_pairs_elems(tp);
    assert forall|a: int, b: int|
        0 <= a < b < ot.len() implies paths[ot[a] as int].sequence.spec_as_u16()
        <= paths[ot[b] as int].sequence.spec_as_u16() by {
        assert(ot[a] == sorted[a].1);
        assert(ot[b] == sorted[b].1);
        assert(tp.contains(sorted[a]));
        let m = choose|m: int| 0 <= m < tp.len() && #[trigger] tp[m] == sorted[a];
        assert(tp[m] == (paths[m + 1].sequence.spec_as_u16(), (m + 1) as usize));
        assert(sorted[a].1 == m + 1);
        assert(sorted[a].0 == paths[sorted[a].1 as int].sequence.spec_as_u16());
        assert(tp.contains(sorted[b]));
        let m2 = choose|m2: int| 0 <= m2 < tp.len() && #[trigger] tp[m2] == sorted[b];
        assert(tp[m2] == (paths[m2 + 1].sequence.spec_as_u16(), (m2 + 1) as usize));
        assert(sorted[b].1 == m2 + 1);
        assert(sorted[b].0 == paths[sorted[b].1 as int].sequence.spec_as_u16());
        assert(!spec_pair_lt(sorted[b], sorted[a]));
    }
    let g = spec_concat_fps(paths, spec_order(paths));
    let n0 = paths[0].slots@.len() as int;
    lemma_entries_ascending(paths, ot, g, n0, Seq::empty());
}

/// What the builder hands back: the immutable policy, whether any used key
/// lives on a hardware device (later registration steps need that), and the
/// display name of each distinct key used, in first-use order.
#[derive(Debug)]
pub struct PolicyBuild {
    pub policy: DescriptorPolicy,
    pub hw_is_used: bool,
    pub key_names: Vec<(u32, String)>,
}

/// The display name registered under `fp`; empty for an unknown key.
pub open spec fn spec_name_of(reg: KeyRegistry, fp: u32) -> Seq<char> {
    match reg.spec_get(fp) {
        Some(k) => k.name@,
        None => Seq::empty(),
    }
}

/// The recorded key names are exactly the distinct fingerprints of `g` at
/// their first use, each with the registered display name.
pub open spec fn spec_names_ok(ns: Seq<(u32, String)>, g: Seq<u32>, reg: KeyRegistry) -> bool {
    &&& ns.len() == spec_dedup(g).len()
    &&& forall|k: int|
        0 <= k < spec_dedup(g).len() ==> (#[trigger] ns[k]).0 == spec_dedup(g)[k]
            && (reg.spec_get(spec_dedup(g)[k]) is Some && ns[k].1@ == spec_name_of(
            reg,
            spec_dedup(g)[k],
        ))
}

proof fn lemma_names_pack(ns: Seq<(u32, String)>, g: Seq<u32>, reg: KeyRegistry)
    requires
        ns.len() == spec_dedup(g).len(),
        forall|k: int|
            0 <= k < spec_dedup(g).len() ==> (#[trigger] ns[k]).0 == spec_dedup(g)[k]
                && (reg.spec_get(spec_dedup(g)[k]) is Some && ns[k].1@ == spec_name_of(
                reg,
                spec_dedup(g)[k],
            )),
    ensures
        spec_names_ok(ns, g, reg),
{
}

/// Every non-primary path has at least one slot, all of them filled.
#[verifier::loop_isolation(false)]
fn check_tail_complete(paths: &Vec<Path>) -> (ok: bool)
    requires
        paths@.len() >= 1,
    ensures
        ok == spec_tail_complete(paths@),
{
    let mut i: usize = 1;
    while i < paths.len()
        invariant
            1 <= i <= paths@.len(),
            forall|x: int|
                1 <= x < i ==> (#[trigger] paths@[x]).slots@.len() >= 1
                    && paths@[x].spec_all_filled(),
        decreases paths@.len() - i,
    {
        let n = paths[i].slots.len();
        if n == 0 {
            proof {
                assert(!((paths@[i as int]).slots@.len() >= 1));
            }
            return false;
        }
        let mut j: usize = 0;
        while j < n
            invariant
                j <= n,
                forall|y: int| 0 <= y < j ==> paths@[i as int].slots@[y] is Some,
            decreases n - j,
        {
            if paths[i].slots[j].is_none() {
                proof {
                    assert(!paths@[i as int].spec_all_filled());
                }
                return false;
            }
            j += 1;
        }
        i += 1;
    }
    true
}

/// Every filled slot's fingerprint is registered.
#[verifier::loop_isolation(false)]
fn check_all_known(paths: &Vec<Path>, reg: &KeyRegistry) -> (ok: bool)
    ensures
        ok == spec_all_known(paths@, *reg),
{
    let mut i: usize = 0;
    while i < paths.len()
        invariant
            i <= paths@.len(),
            forall|x: int, y: int|
                0 <= x < i && 0 <= y < paths@[x].slots@.len() ==> match #[trigger] paths@[x].slots@[y] {
                    Some(fp) => reg.spec_get(fp) is Some,
                    None => true,
                },
        decreases paths@.len() - i,
    {
        let n = paths[i].slots.len();
        let mut j: usize = 0;
        while j < n
            invariant
                i < paths@.len(),
                n == paths@[i as int].slots@.len(),
                j <= n,
                forall|y: int|
                    0 <= y < j ==> match #[trigger] paths@[i as int].slots@[y] {
                        Some(fp) => reg.spec_get(fp) is Some,
                        None => true,
                    },
            decreases n - j,
        {
            match paths[i].slots[j] {
                Some(fp) => {
                    if reg.get(fp).is_none() {
                        proof {
                            assert(paths@[i as int].slots@[j as int] == Some(fp));
                        }
                        return false;
                    }
                }
                None => {}
            }
            j += 1;
        }
        i += 1;
    }
    true
}

/// Does any used key live on a hardware device?
#[verifier::loop_isolation(false)]
fn compute_hw_is_used(paths: &Vec<Path>, reg: &KeyRegistry) -> (r: bool)
    ensures
        r == spec_uses_device(paths@, *reg),
{
    let mut found = false;
    let mut i: usize = 0;
    while i < paths.len()
        invariant
            i <= paths@.len(),
            found == exists|x: int, y: int|
                0 <= x < i && 0 <= y < paths@[x].slots@.len() && spec_device_at(
                    paths@,
                    *reg,
                    x,
                    y,
                ),
        decreases paths@.len() - i,
    {
        let n = paths[i].slots.len();
        let mut j: usize = 0;
        while j < n
            invariant
                i < paths@.len(),
                n == paths@[i as int].slots@.len(),
                j <= n,
                found == ((exists|x: int, y: int|
                    0 <= x < i && 0 <= y < paths@[x].slots@.len() && spec_device_at(
                        paths@,
                        *reg,
                        x,
                        y,
                    )) || (exists|y: int|
                    0 <= y < j && spec_device_at(paths@, *reg, i as int, y))),
            decreases n - j,
        {
            match paths[i].slots[j] {
                Some(fp) => {
                    match reg.get(fp) {
                        Some(k) => {
                            if k.source.is_device() {
                                found = true;
                                proof {
                                    assert(spec_device_at(paths@, *reg, i as int, j as int));
                                }
                            }
                        }
                        None => {}
                    }
                }
                None => {}
            }
            j += 1;
        }
        i += 1;
    }
    found
}

/// The processing order: position zero first, the rest by ascending
/// time-lock. Every entry is a valid position.
#[verifier::loop_isolation(false)]
fn make_order(paths: &Vec<Path>) -> (ord: Vec<usize>)
    requires
        paths@.len() >= 1,
    ensures
        ord@ == spec_order(paths@),
        forall|x: int| 0 <= x < ord@.len() ==> (#[trigger] ord@[x]) < paths@.len(),
        ord@.len() == paths@.len(),
{
    let mut pairs: Vec<(u16, usize)> = Vec::new();
    let mut i: usize = 1;
    while i < paths.len()
        invariant
            1 <= i <= paths@.len(),
            pairs@ =~= spec_tail_pairs(paths@).take(i - 1),
        decreases paths@.len() - i,
    {
        pairs.push((paths[i].sequence.as_u16(), i));
        i += 1;
        proof {
            assert(pairs@ =~= spec_tail_pairs(paths@).take(i - 1));
        }
    }
    proof {
        assert(pairs@ =~= spec_tail_pairs(paths@));
    }
    let sorted = sort_pairs(&pairs);
    let mut ord: Vec<usize> = Vec::new();
    ord.push(0);
    let mut k: usize = 0;
    while k < sorted.len()
        invariant
            k <= sorted@.len(),
            ord@.len() == k + 1,
            ord@[0] == 0usize,
            forall|x: int| 1 <= x <= k ==> ord@[x] == (#[trigger] sorted@[x - 1]).1,
        decreases sorted@.len() - k,
    {
        ord.push(sorted[k].1);
        k += 1;
    }
    proof {
        assert(ord@ =~= spec_order(paths@));
        lemma_sort_pairs_elems(spec_tail_pairs(paths@));
        assert forall|x: int| 0 <= x < ord@.len() implies (#[trigger] ord@[x]) < paths@.len() by {
            if x >= 1 {
                let e = sorted@[x - 1];
                assert(spec_tail_pairs(paths@).contains(e));
                let m = choose|m: int|
                    0 <= m < spec_tail_pairs(paths@).len() && #[trigger] spec_tail_pairs(
                        paths@,
                    )[m] == e;
                assert(e.1 == m + 1);
            }
        }
    }
    ord
}

/// All slot fingerprints, flattened in processing order. Every entry is a
/// registered fingerprint.
#[verifier::loop_isolation(false)]
fn flatten_fps(paths: &Vec<Path>, ord: &Vec<usize>, reg: &KeyRegistry) -> (g: Vec<u32>)
    requires
        forall|x: int| 0 <= x < ord@.len() ==> (#[trigger] ord@[x]) < paths@.len(),
        forall|i: int| 0 <= i < paths@.len() ==> (#[trigger] paths@[i]).spec_all_filled(),
        spec_all_known(paths@, *reg),
    ensures
        g@ == spec_concat_fps(paths@, ord@),
        forall|y: int| 0 <= y < g@.len() ==> reg.spec_get(#[trigger] g@[y]) is Some,
{
    let mut g: Vec<u32> = Vec::new();
    let mut k: usize = 0;
    proof {
        assert(g@ =~= spec_concat_fps(paths@, ord@.take(0)));
    }
    while k < ord.len()
        invariant
            k <= ord@.len(),
            g@ =~= spec_concat_fps(paths@, ord@.take(k as int)),
            forall|y: int| 0 <= y < g@.len() ==> reg.spec_get(#[trigger] g@[y]) is Some,
        decreases ord@.len() - k,
    {
        let pi = ord[k];
        let n = paths[pi].slots.len();
        let ghost g_before = g@;
        let mut j: usize = 0;
        while j < n
            invariant
                pi < paths@.len(),
                n == paths@[pi as int].slots@.len(),
                j <= n,
                g@ =~= g_before + spec_path_fps(paths@[pi as int]).take(j as int),
                forall|y: int| 0 <= y < g@.len() ==> reg.spec_get(#[trigger] g@[y]) is Some,
            decreases n - j,
        {
            match paths[pi].slots[j] {
                Some(fp) => { g.push(fp) }
                None => { g.push(0) }
            }
            j += 1;
            proof {
                assert(paths@[pi as int].slots@[j - 1] is Some);
                assert(spec_path_fps(paths@[pi as int])[j - 1] == (match paths@[pi as int].slots@[
                    j - 1] {
                    Some(fp) => fp,
                    None => 0u32,
                }));
                assert(g@ =~= g_before + spec_path_fps(paths@[pi as int]).take(j as int));
            }
        }
        proof {
            assert(spec_path_fps(paths@[pi as int]).take(n as int) =~= spec_path_fps(
                paths@[pi as int],
            ));
            let o = ord@;
            let tk = o.take(k as int + 1);
            assert(tk.take(k as int) =~= o.take(k as int));
            lemma_concat_split(paths@, tk, k as int);
            assert(tk.skip(k as int) =~= seq![o[k as int]]);
            lemma_concat_single(paths@, o[k as int]);
        }
        k += 1;
    }
    proof {
        assert(ord@.take(ord@.len() as int) =~= ord@);
    }
    g
}

/// The derived keys of one path: the `n` uses at offset `off` of `g`, each
/// with its derivation index; the first use of a fingerprint also records
/// its display name.
#[verifier::loop_isolation(false)]
fn derive_path_keys(
    g: &Vec<u32>,
    reg: &KeyRegistry,
    off: usize,
    n: usize,
    names: &mut Vec<(u32, String)>,
) -> (keys: Vec<DerivedKey>)
    requires
        off + n <= g@.len(),
        forall|y: int| 0 <= y < g@.len() ==> reg.spec_get(#[trigger] g@[y]) is Some,
        old(names)@.len() == spec_dedup(g@.take(off as int)).len(),
        forall|x: int|
            0 <= x < old(names)@.len() ==> (#[trigger] old(names)@[x]).0 == spec_dedup(
                g@.take(off as int),
            )[x] && (reg.spec_get(old(names)@[x].0) is Some && old(names)@[x].1@
                == spec_name_of(*reg, old(names)@[x].0)),
    ensures
        keys@ == spec_keys_at(g@, off as int, n as int),
        final(names)@.len() == spec_dedup(g@.take(off + n)).len(),
        forall|x: int|
            0 <= x < final(names)@.len() ==> (#[trigger] final(names)@[x]).0 == spec_dedup(
                g@.take(off + n),
            )[x] && (reg.spec_get(final(names)@[x].0) is Some && final(names)@[x].1@
                == spec_name_of(*reg, final(names)@[x].0)),
{
    let ghost gs = g@;
    let glen: usize = g.len();
    let mut keys: Vec<DerivedKey> = Vec::new();
    let mut j: usize = 0;
    proof {
        assert(keys@ =~= spec_keys_at(gs, off as int, n as int).take(0));
    }
    while j < n
        invariant
            j <= n,
            off + n <= glen,
            glen == g@.len(),
            keys@ =~= spec_keys_at(gs, off as int, n as int).take(j as int),
            names@.len() == spec_dedup(gs.take(off + j)).len(),
            forall|x: int|
                0 <= x < names@.len() ==> (#[trigger] names@[x]).0 == spec_dedup(
                    gs.take(off + j),
                )[x] && (reg.spec_get(names@[x].0) is Some && names@[x].1@ == spec_name_of(
                    *reg,
                    names@[x].0,
                )),
        decreases n - j,
    {
        let fp = g[off + j];
        let idx = count_prefix(g, fp, off + j);
        proof {
            lemma_count_fp_range(gs, fp, off + j);
        }
        keys.push(DerivedKey { fingerprint: fp, index: idx });
        proof {
            assert(keys@ =~= spec_keys_at(gs, off as int, n as int).take(j + 1));
        }
        // First use of this key: record its display name.
        if idx == 0 {
            proof {
                lemma_count_fp_zero(gs, fp, off + j);
            }
            match reg.get(fp) {
                Some(key) => {
                    let alias = key.name.clone();
                    names.push((fp, alias));
                }
                None => {
                    proof {
                        assert(reg.spec_get(gs[off + j]) is Some);
                        assert(false);
                    }
                }
            }
        }
        j += 1;
        proof {
            let t1 = gs.take(off + j);
            assert(t1.drop_last() =~= gs.take(off + j - 1));
            assert(t1.last() == gs[off + j - 1]);
            lemma_count_fp_zero(gs, gs[off + j - 1], off + j - 1);
            lemma_dedup_contains(gs.take(off + j - 1), gs[off + j - 1]);
            assert(names@.len() == spec_dedup(gs.take(off + j)).len());
        }
    }
    proof {
        assert(spec_keys_at(gs, off as int, n as int).take(n as int) =~= spec_keys_at(
            gs,
            off as int,
            n as int,
        ));
    }
    keys
}

/// Assign every key use its derivation index and assemble the key-sets:
/// the primary one, the recovery table, and the distinct keys' names.
#[verifier::loop_isolation(false)]
#[verifier::rlimit(100)]
fn derive_keysets(
    paths: &Vec<Path>,
    reg: &KeyRegistry,
    ord: &Vec<usize>,
    g: &Vec<u32>,
) -> (r: (KeySet, Vec<(u16, KeySet)>, Vec<(u32, String)>))
    requires
        paths@.len() >= 2,
        ord@ == spec_order(paths@),
        ord@.len() == paths@.len(),
        forall|x: int| 0 <= x < ord@.len() ==> (#[trigger] ord@[x]) < paths@.len(),
        g@ == spec_concat_fps(paths@, ord@),
        forall|y: int| 0 <= y < g@.len() ==> reg.spec_get(#[trigger] g@[y]) is Some,
    ensures
        r.0@ == spec_keyset_at(
            paths@[0].threshold as int,
            g@,
            0,
            paths@[0].slots@.len() as int,
        ),
        spec_rec_view(r.1@) == spec_entries(
            paths@,
            spec_tail_order(paths@),
            g@,
            paths@[0].slots@.len() as int,
            Seq::empty(),
        ),
        spec_names_ok(r.2@, g@, *reg),
{
    let ghost gs = g@;
    let glen: usize = g.len();
    let mut primary: KeySet = KeySet::Single(DerivedKey { fingerprint: 0, index: 0 });
    let mut recovery: Vec<(u16, KeySet)> = Vec::new();
    let mut names: Vec<(u32, String)> = Vec::new();
    let mut off: usize = 0;
    let ghost n0 = paths@[0].slots@.len() as int;
    let mut k: usize = 0;
    proof {
        assert(ord@.take(0) =~= Seq::<usize>::empty());
        assert(gs.take(0) =~= Seq::<u32>::empty());
    }
    while k < ord.len()
        invariant
            k <= ord@.len(),
            glen == g@.len(),
            off as int == spec_concat_fps(paths@, ord@.take(k as int)).len(),
            off <= glen,
            k == 0 ==> recovery@.len() == 0,
            k == 0 ==> off == 0,
            k >= 1 ==> primary@ == spec_keyset_at(paths@[0].threshold as int, gs, 0, n0),
            k >= 1 ==> spec_entries(paths@, ord@.skip(1), gs, n0, Seq::empty()) == spec_entries(
                paths@,
                ord@.skip(k as int),
                gs,
                off as int,
                spec_rec_view(recovery@),
            ),
            names@.len() == spec_dedup(gs.take(off as int)).len(),
            forall|x: int|
                0 <= x < names@.len() ==> (#[trigger] names@[x]).0 == spec_dedup(
                    gs.take(off as int),
                )[x] && (reg.spec_get(names@[x].0) is Some && names@[x].1@ == spec_name_of(
                    *reg,
                    names@[x].0,
                )),
        decreases ord@.len() - k,
    {
        let pi = ord[k];
        let n = paths[pi].slots.len();
        proof {
            let o = ord@;
            let tk = o.take(k as int + 1);
            assert(tk.take(k as int) =~= o.take(k as int));
            lemma_concat_split(paths@, tk, k as int);
            assert(tk.skip(k as int) =~= seq![o[k as int]]);
            lemma_concat_single(paths@, o[k as int]);
            lemma_concat_split(paths@, o, k as int + 1);
            assert(spec_concat_fps(paths@, o.take(k as int + 1)).len() == off + n);
            assert(off + n <= glen);
        }
        let keys = derive_path_keys(g, reg, off, n, &mut names);
        let ks: KeySet = if n == 1 {
            let k0 = keys[0];
            proof {
                assert(keys@[0] == spec_keys_at(gs, off as int, n as int)[0]);
            }
            KeySet::Single(k0)
        } else {
            KeySet::Multi(paths[pi].threshold, keys)
        };
        proof {
            assert(ks@ == spec_keyset_at(paths@[pi as int].threshold as int, gs, off as int,
                n as int));
        }
        if k == 0 {
            primary = ks;
            proof {
                assert(ord@[0] == 0usize);
                assert(spec_rec_view(recovery@) =~= Seq::<(u16, KeySetView)>::empty());
            }
        } else {
            let sv = paths[pi].sequence.as_u16();
            let ghost rec_before = spec_rec_view(recovery@);
            let replace = if recovery.len() > 0 {
                let last = recovery.len() - 1;
                recovery[last].0 == sv
            } else {
                false
            };
            if replace {
                let _ = recovery.pop();
                recovery.push((sv, ks));
                proof {
                    assert(spec_rec_view(recovery@) =~= rec_before.drop_last().push(
                        (sv, spec_keyset_at(paths@[pi as int].threshold as int, gs, off as int,
                        n as int)),
                    ));
                }
            } else {
                recovery.push((sv, ks));
                proof {
                    assert(spec_rec_view(recovery@) =~= rec_before.push(
                        (sv, spec_keyset_at(paths@[pi as int].threshold as int, gs, off as int,
                        n as int)),
                    ));
                }
            }
            proof {
                let o = ord@;
                let rem = o.skip(k as int);
                assert(rem[0] == o[k as int]);
                assert(rem.skip(1) =~= o.skip(k as int + 1));
            }
        }
        off = off + n;
        k += 1;
        proof {
            let o = ord@;
            let tk = o.take(k as int);
            assert(tk.take(k as int - 1) =~= o.take(k as int - 1));
            lemma_concat_split(paths@, tk, k as int - 1);
            assert(tk.skip(k as int - 1) =~= seq![o[k as int - 1]]);
            lemma_concat_single(paths@, o[k as int - 1]);
            if k == 1 {
                assert(o.skip(1) =~= o.skip(0int + 1));
            }
        }
    }
    proof {
        assert(ord@.take(ord@.len() as int) =~= ord@);
        assert(off as int == gs.len());
        assert(gs.take(off as int) =~= gs);
        assert(spec_dedup(gs.take(off as int)) == spec_dedup(gs));
        assert(ord@.skip(ord@.len() as int) =~= Seq::<usize>::empty());
        assert(ord@.skip(1) =~= spec_tail_order(paths@));
        assert(names@.len() == spec_dedup(g@).len());
        assert forall|x: int|
            0 <= x < spec_dedup(g@).len() implies (#[trigger] names@[x]).0 == spec_dedup(g@)[x]
            && (reg.spec_get(spec_dedup(g@)[x]) is Some && names@[x].1@ == spec_name_of(
            *reg,
            spec_dedup(g@)[x],
        )) by {
            assert(names@[x].0 == spec_dedup(gs.take(off as int))[x]);
            assert(spec_dedup(g@)[x] == names@[x].0);
        }
        lemma_names_pack(names@, g@, *reg);
    }
    (primary, recovery, names)
}

/// A short description of a builder error, for the editor's inline
/// message.
pub fn error_message(e: PolicyError) -> (r: String)
    ensures
        match e {
            PolicyError::InsufficientPaths => r@ == "a policy needs at least two paths"@,
            PolicyError::EmptyPrimaryPath => r@ == "the primary path is not complete"@,
            PolicyError::IncompletePath => r@ == "a recovery path is not complete"@,
            PolicyError::UnknownKey => r@ == "a key slot references an unknown key"@,
        },
{
    match e {
        PolicyError::InsufficientPaths => String::from_str("a policy needs at least two paths"),
        PolicyError::EmptyPrimaryPath => String::from_str("the primary path is not complete"),
        PolicyError::IncompletePath => String::from_str("a recovery path is not complete"),
        PolicyError::UnknownKey => String::from_str("a key slot references an unknown key"),
    }
}

/// Build the policy: check the paths, order the non-primary ones by
/// ascending time-lock, give every key use its derivation index, and wrap
/// each path's keys as a single key or a threshold set.
#[verifier::rlimit(100)]
pub fn build(
    paths: &Vec<Path>,
    reg: &KeyRegistry,
    use_taproot: bool,
    network: Network,
) -> (r: Result<PolicyBuild, PolicyError>)
    ensures
        r is Ok <==> spec_buildable(paths@, *reg, use_taproot),
        (r matches Err(e) && e == PolicyError::InsufficientPaths) <==> paths@.len() < 2,
        (r matches Err(e) && e == PolicyError::EmptyPrimaryPath) <==> (paths@.len() >= 2
            && !paths@[0].spec_is_valid(*reg, use_taproot)),
        (r matches Err(e) && e == PolicyError::IncompletePath) <==> (paths@.len() >= 2
            && paths@[0].spec_is_valid(*reg, use_taproot) && !spec_tail_complete(paths@)),
        (r matches Err(e) && e == PolicyError::UnknownKey) <==> (paths@.len() >= 2
            && paths@[0].spec_is_valid(*reg, use_taproot) && spec_tail_complete(paths@)
            && !spec_all_known(paths@, *reg)),
        r matches Ok(b) ==> b.policy@ == spec_build_view(paths@, use_taproot, network),
        r matches Ok(b) ==> b.hw_is_used == spec_uses_device(paths@, *reg),
        r matches Ok(b) ==> spec_names_ok(
            b.key_names@,
            spec_concat_fps(paths@, spec_order(paths@)),
            *reg,
        ),
{
    if paths.len() < 2 {
        return Err(PolicyError::InsufficientPaths);
    }
    if !paths[0].is_valid(reg, use_taproot) {
        return Err(PolicyError::EmptyPrimaryPath);
    }
    if !check_tail_complete(paths) {
        return Err(PolicyError::IncompletePath);
    }
    if !check_all_known(paths, reg) {
        return Err(PolicyError::UnknownKey);
    }
    let hw_is_used = compute_hw_is_used(paths, reg);
    let ord = make_order(paths);
    proof {
        assert(paths@[0].spec_all_filled());
        assert forall|i: int| 0 <= i < paths@.len() implies (#[trigger] paths@[i]).spec_all_filled() by {
            if i >= 1 {
                assert(spec_tail_complete(paths@));
            }
        }
    }
    let g = flatten_fps(paths, &ord, reg);
    let (primary, recovery, names) = derive_keysets(paths, reg, &ord, &g);
    let ghost names_v = names@;
    let policy = DescriptorPolicy { network, alternate: use_taproot, primary, recovery };
    let result = PolicyBuild { policy, hw_is_used, key_names: names };
    proof {
        let bv = spec_build_view(paths@, use_taproot, network);
        let gsp = spec_concat_fps(paths@, spec_order(paths@));
        assert(gsp == g@);
        assert(result.policy@.primary == bv.primary);
        assert(result.policy@.recovery == bv.recovery);
        assert(result.policy@ == bv);
        assert(result.hw_is_used == spec_uses_device(paths@, *reg));
        assert(result.key_names@ == names_v);
        assert(spec_names_ok(result.key_names@, gsp, *reg));
    }
    Ok(result)
}


fn copy_keyset(k: &KeySet) -> (r: KeySet)
    ensures
        r@ == k@,
{
    match k {
        KeySet::Single(d) => KeySet::Single(*d),
        KeySet::Multi(t, ks) => {
            let mut v: Vec<DerivedKey> = Vec::new();
            let mut i: usize = 0;
            while i < ks.len()
                invariant
                    i <= ks@.len(),
                    v@ =~= ks@.take(i as int),
                decreases ks@.len() - i,
            {
                v.push(ks[i]);
                i += 1;
                proof {
                    assert(v@ =~= ks@.take(i as int));
                }
            }
            proof {
                assert(ks@.take(ks@.len() as int) =~= ks@);
            }
            KeySet::Multi(*t, v)
        }
    }
}

/// A value-identical copy of a policy.
#[verifier::loop_isolation(false)]
pub fn copy_policy(p: &DescriptorPolicy) -> (r: DescriptorPolicy)
    ensures
        r@ == p@,
{
    let primary = copy_keyset(&p.primary);
    let mut recovery: Vec<(u16, KeySet)> = Vec::new();
    let mut i: usize = 0;
    proof {
        assert(spec_rec_view(recovery@) =~= spec_rec_view(p.recovery@).take(0));
    }
    while i < p.recovery.len()
        invariant
            i <= p.recovery@.len(),
            spec_rec_view(recovery@) =~= spec_rec_view(p.recovery@).take(i as int),
        decreases p.recovery@.len() - i,
    {
        let e = &p.recovery[i];
        let ks = copy_keyset(&e.1);
        recovery.push((e.0, ks));
        i += 1;
        proof {
            assert(spec_rec_view(recovery@) =~= spec_rec_view(p.recovery@).take(i as int));
        }
    }
    proof {
        assert(spec_rec_view(p.recovery@).take(p.recovery@.len() as int) =~= spec_rec_view(
            p.recovery@,
        ));
    }
    let r = DescriptorPolicy { network: p.network, alternate: p.alternate, primary, recovery };
    proof {
        assert(r@ == p@);
    }
    r
}

} // verus!
