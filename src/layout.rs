//! Placement of the assets in video memory: a fixed sort order followed by a
//! greedy best-fit pass with one step of look-ahead.

use vstd::prelude::*;
use crate::params::FileParameters;

verus! {

/// Size of the address space that the assets are placed in.
pub const VRAM_LIMIT: usize = 0x1F9C0;

/// `a` rounded up to the next multiple of `al`.
pub open spec fn align_up(a: int, al: int) -> int {
    ((a + (al - 1)) / al) * al
}

pub proof fn lemma_align_up(a: int, al: int)
    requires
        a >= 0,
        al >= 1,
    ensures
        a <= align_up(a, al) <= a + al - 1,
        align_up(a, al) % al == 0,
{
    let x = a + al - 1;
    let q = x / al;
    vstd::arithmetic::div_mod::lemma_fundamental_div_mod(x, al);
    vstd::arithmetic::div_mod::lemma_mod_multiples_basic(q, al);
    assert(0 <= x % al < al);
    assert(q * al == al * q) by (nonlinear_arith);
}

/// Lexicographic order on strings, by character.
pub open spec fn lex_lt(a: Seq<char>, b: Seq<char>) -> bool
    decreases a.len(),
{
    if a.len() == 0 {
        b.len() > 0
    } else if b.len() == 0 {
        false
    } else if a[0] != b[0] {
        a[0] < b[0]
    } else {
        lex_lt(a.drop_first(), b.drop_first())
    }
}

proof fn lemma_lex_lt_irreflexive(a: Seq<char>)
    ensures
        !lex_lt(a, a),
    decreases a.len(),
{
    if a.len() > 0 {
        lemma_lex_lt_irreflexive(a.drop_first());
    }
}

proof fn lemma_lex_lt_transitive(a: Seq<char>, b: Seq<char>, c: Seq<char>)
    requires
        lex_lt(a, b),
        lex_lt(b, c),
    ensures
        lex_lt(a, c),
    decreases a.len(),
{
    if a.len() > 0 && b.len() > 0 && c.len() > 0 && a[0] == b[0] && b[0] == c[0] {
        lemma_lex_lt_transitive(a.drop_first(), b.drop_first(), c.drop_first());
    }
}

/// The order in which assets are considered for placement: vapor assets
/// first, then larger alignment, then larger size, then path in ascending order.
pub open spec fn precedes(a: FileParameters, b: FileParameters) -> bool {
    if a.vapor != b.vapor {
        a.vapor
    } else if a.alignment != b.alignment {
        a.alignment > b.alignment
    } else if a.size != b.size {
        a.size > b.size
    } else {
        lex_lt(a.path@, b.path@)
    }
}

proof fn lemma_precedes_order(a: FileParameters, b: FileParameters, c: FileParameters)
    ensures
        !precedes(a, a),
        precedes(a, b) && precedes(b, c) ==> precedes(a, c),
{
    lemma_lex_lt_irreflexive(a.path@);
    if precedes(a, b) && precedes(b, c) && a.vapor == b.vapor && b.vapor == c.vapor
        && a.alignment == b.alignment && b.alignment == c.alignment && a.size == b.size
        && b.size == c.size {
        lemma_lex_lt_transitive(a.path@, b.path@, c.path@);
    }
}

fn path_before(a: &str, b: &str) -> (r: bool)
    ensures
        r == lex_lt(a@, b@),
{
    let la = a.unicode_len();
    let lb = b.unicode_len();
    let mut i: usize = 0;
    assert(a@.skip(0) =~= a@);
    assert(b@.skip(0) =~= b@);
    while i < la && i < lb
        invariant
            la == a@.len(),
            lb == b@.len(),
            i <= la,
            i <= lb,
            lex_lt(a@, b@) == lex_lt(a@.skip(i as int), b@.skip(i as int)),
        decreases la - i,
    {
        let ca = a.get_char(i);
        let cb = b.get_char(i);
        if ca != cb {
            return ca < cb;
        }
        assert(a@.skip(i as int).drop_first() =~= a@.skip(i + 1));
        assert(b@.skip(i as int).drop_first() =~= b@.skip(i + 1));
        i = i + 1;
    }
    i < lb
}

/// Whether `a` is placed before `b` in the sort order.
pub fn file_precedes(a: &FileParameters, b: &FileParameters) -> (r: bool)
    ensures
        r == precedes(*a, *b),
{
    if a.vapor != b.vapor {
        a.vapor
    } else if a.alignment != b.alignment {
        a.alignment > b.alignment
    } else if a.size != b.size {
        a.size > b.size
    } else {
        path_before(a.path.as_str(), b.path.as_str())
    }
}

/// `order` lists each index of `files` once.
pub open spec fn is_permutation(order: Seq<usize>, n: nat) -> bool {
    &&& order.len() == n
    &&& forall|i: int| 0 <= i < order.len() ==> order[i] < n
    &&& forall|i: int, j: int| 0 <= i < j < order.len() ==> order[i] != order[j]
}

/// No file of `order` is preceded by a file listed after it.
pub open spec fn sorted_by_precedence(files: Seq<FileParameters>, order: Seq<usize>) -> bool {
    forall|i: int, j: int|
        0 <= i < j < order.len() ==> !precedes(files[order[j] as int], files[order[i] as int])
}

/// The indices of `files` in placement order (a stable insertion sort).
pub fn sort_order(files: &Vec<FileParameters>) -> (order: Vec<usize>)
    ensures
        is_permutation(order@, files@.len()),
        sorted_by_precedence(files@, order@),
{
    let mut order: Vec<usize> = Vec::new();
    let n = files.len();
    for k in 0..n
        invariant
            n == files@.len(),
            is_permutation(order@, k as nat),
            sorted_by_precedence(files@, order@),
    {
        let mut p: usize = 0;
        while p < order.len() && !file_precedes(&files[k], &files[order[p]])
            invariant
                is_permutation(order@, k as nat),
                k < n == files@.len(),
                p <= order@.len(),
                forall|q: int| 0 <= q < p ==> !precedes(files@[k as int], files@[order@[q] as int]),
            decreases order@.len() - p,
        {
            p = p + 1;
        }
        proof {
            assert forall|q: int| p <= q < order@.len() implies !precedes(
                files@[order@[q] as int],
                files@[k as int],
            ) by {
                lemma_precedes_order(files@[order@[q] as int], files@[k as int], files@[order@[p as int] as int]);
                lemma_precedes_order(files@[order@[q] as int], files@[order@[p as int] as int], files@[order@[q] as int]);
            }
        }
        let ghost old_order = order@;
        order.insert(p, k);
        proof {
            assert(order@ =~= old_order.insert(p as int, k));
            assert forall|i: int, j: int| 0 <= i < j < order@.len() implies !precedes(
                files@[order@[j] as int],
                files@[order@[i] as int],
            ) by {
                if j < p {
                } else if j == p {
                } else if i < p {
                    assert(order@[j] == old_order[j - 1]);
                    lemma_precedes_order(files@[old_order[j - 1] as int], files@[k as int], files@[old_order[i] as int]);
                } else if i == p {
                } else {
                }
            }
        }
    }
    order
}

/// Where one asset was placed, and the alignment padding left just before it.
#[derive(Clone, Copy, Debug, PartialEq, Eq, Structural)]
pub struct Placement {
    /// Index of the asset in the list that was arranged.
    pub file: usize,
    pub address: usize,
    pub waste: usize,
}

/// The outcome of arranging all assets: one placement each, in address
/// order, and the first address past the last asset.
#[derive(Debug)]
pub struct Arrangement {
    /// The indices of the assets in sort order, before any reordering by best fit.
    pub order: Vec<usize>,
    pub placements: Vec<Placement>,
    pub end_address: usize,
}

/// Size plus alignment: an upper bound on what placing the asset can use.
pub open spec fn cost(f: FileParameters) -> int {
    f.size + f.alignment
}

pub open spec fn extent(files: Seq<FileParameters>, rem: Seq<usize>) -> int
    decreases rem.len(),
{
    if rem.len() == 0 {
        0
    } else {
        extent(files, rem.drop_last()) + cost(files[rem.last() as int])
    }
}

/// The padding used when candidate `c` is placed first at the aligned
/// address after `a` and the head asset `h` is then realigned after it.
pub open spec fn detour_waste(a: int, c: FileParameters, h: FileParameters) -> int {
    let nc = align_up(a, c.alignment as int);
    let after = nc + c.size;
    (nc - a) + (align_up(after, h.alignment as int) - after)
}

/// The padding that choosing position `i` of `rem` would cost: for the head
/// its own gap, for any other its detour waste.
pub open spec fn candidate_waste(files: Seq<FileParameters>, rem: Seq<usize>, a: int, i: int) -> int {
    if i == 0 {
        align_up(a, files[rem[0] as int].alignment as int) - a
    } else {
        detour_waste(a, files[rem[i] as int], files[rem[0] as int])
    }
}

/// The position among `0..k` with the least candidate waste; the earliest wins a tie.
pub open spec fn best_among(files: Seq<FileParameters>, rem: Seq<usize>, a: int, k: int) -> int
    decreases k,
{
    if k <= 1 {
        0
    } else {
        let p = best_among(files, rem, a, k - 1);
        if candidate_waste(files, rem, a, k - 1) < candidate_waste(files, rem, a, p) {
            k - 1
        } else {
            p
        }
    }
}

pub proof fn lemma_best_among_range(files: Seq<FileParameters>, rem: Seq<usize>, a: int, k: int)
    ensures
        0 <= best_among(files, rem, a, k),
        k >= 1 ==> best_among(files, rem, a, k) < k,
    decreases k,
{
    if k > 1 {
        lemma_best_among_range(files, rem, a, k - 1);
    }
}

/// The position of `rem` placed next from address `a`: the head when it
/// needs no padding or stands alone, else the best candidate.
pub open spec fn choice(files: Seq<FileParameters>, rem: Seq<usize>, a: int) -> int {
    if candidate_waste(files, rem, a, 0) == 0 || rem.len() == 1 {
        0
    } else {
        best_among(files, rem, a, rem.len() as int)
    }
}

/// The placements made from address `a` for the assets `rem`, in that order of preference.
pub open spec fn plan(files: Seq<FileParameters>, rem: Seq<usize>, a: int) -> Seq<Placement>
    decreases rem.len(),
{
    if rem.len() == 0 {
        Seq::empty()
    } else {
        let i = choice(files, rem, a);
        proof {
            lemma_best_among_range(files, rem, a, rem.len() as int);
        }
        let f = files[rem[i] as int];
        let at = align_up(a, f.alignment as int);
        seq![(Placement { file: rem[i], address: at as usize, waste: (at - a) as usize })]
            + plan(files, rem.remove(i), at + f.size)
    }
}

/// The first address past the last asset that `plan` places.
pub open spec fn plan_end(files: Seq<FileParameters>, rem: Seq<usize>, a: int) -> int
    decreases rem.len(),
{
    if rem.len() == 0 {
        a
    } else {
        let i = choice(files, rem, a);
        proof {
            lemma_best_among_range(files, rem, a, rem.len() as int);
        }
        let f = files[rem[i] as int];
        plan_end(files, rem.remove(i), align_up(a, f.alignment as int) + f.size)
    }
}

/// What `arrange_files_in_memory` owes for `files`.
pub open spec fn arrangeable(files: Seq<FileParameters>) -> bool {
    &&& forall|i: int| 0 <= i < files.len() ==> files[i].alignment >= 1
    &&& total_cost(files) <= usize::MAX
}

pub open spec fn total_cost(files: Seq<FileParameters>) -> int
    decreases files.len(),
{
    if files.len() == 0 {
        0
    } else {
        total_cost(files.drop_last()) + cost(files.last())
    }
}

proof fn lemma_extent_nonneg(files: Seq<FileParameters>, rem: Seq<usize>)
    ensures
        extent(files, rem) >= 0,
    decreases rem.len(),
{
    if rem.len() > 0 {
        lemma_extent_nonneg(files, rem.drop_last());
    }
}

proof fn lemma_extent_remove(files: Seq<FileParameters>, rem: Seq<usize>, i: int)
    requires
        0 <= i < rem.len(),
    ensures
        extent(files, rem) == extent(files, rem.remove(i)) + cost(files[rem[i] as int]),
    decreases rem.len(),
{
    if i < rem.len() - 1 {
        assert(rem.remove(i).drop_last() =~= rem.drop_last().remove(i));
        lemma_extent_remove(files, rem.drop_last(), i);
    } else {
        assert(rem.remove(i) =~= rem.drop_last());
    }
}

/// Any two distinct positions of `rem` together cost no more than all of it.
proof fn lemma_extent_two(files: Seq<FileParameters>, rem: Seq<usize>, i: int)
    requires
        0 < i < rem.len(),
    ensures
        cost(files[rem[0] as int]) + cost(files[rem[i] as int]) <= extent(files, rem),
{
    lemma_extent_remove(files, rem, i);
    lemma_extent_remove(files, rem.remove(i), 0);
    lemma_extent_nonneg(files, rem.remove(i).remove(0));
}

/// Only the assets that `rem` lists count towards its extent.
proof fn lemma_extent_prefix(files: Seq<FileParameters>, rem: Seq<usize>, n: int)
    requires
        n <= files.len(),
        forall|j: int| 0 <= j < rem.len() ==> rem[j] < n,
    ensures
        extent(files, rem) == extent(files.take(n), rem),
    decreases rem.len(),
{
    if rem.len() > 0 {
        lemma_extent_prefix(files, rem.drop_last(), n);
    }
}

/// The extent of a permutation of all assets is their total cost.
proof fn lemma_extent_permutation(files: Seq<FileParameters>, order: Seq<usize>)
    requires
        is_permutation(order, files.len()),
        files.len() <= usize::MAX,
    ensures
        extent(files, order) == total_cost(files),
    decreases files.len(),
{
    let n = files.len() as int;
    if n > 0 {
        let last = (n - 1) as usize;
        // the last asset stands somewhere in the order
        assert(exists|p: int| 0 <= p < order.len() && order[p] == last) by {
            lemma_permutation_covers(order, n as nat, last);
        }
        let p = choose|p: int| 0 <= p < order.len() && order[p] == last;
        let rest = order.remove(p);
        lemma_extent_remove(files, order, p);
        assert forall|j: int| 0 <= j < rest.len() implies rest[j] < n - 1 by {
            if j < p {
                assert(rest[j] == order[j]);
            } else {
                assert(rest[j] == order[j + 1]);
            }
        }
        lemma_extent_prefix(files, rest, n - 1);
        assert(files.take(n - 1) =~= files.drop_last());
        assert(is_permutation(rest, (n - 1) as nat)) by {
            assert forall|i: int, j: int| 0 <= i < j < rest.len() implies rest[i] != rest[j] by {
                let oi = if i < p { i } else { i + 1 };
                let oj = if j < p { j } else { j + 1 };
                assert(rest[i] == order[oi] && rest[j] == order[oj]);
            }
        }
        lemma_extent_permutation(files.drop_last(), rest);
    }
}

/// A permutation of `0..n` holds each index below `n`.
pub proof fn lemma_permutation_covers(order: Seq<usize>, n: nat, v: usize)
    requires
        is_permutation(order, n),
        n <= usize::MAX,
        v < n,
    ensures
        exists|p: int| 0 <= p < order.len() && order[p] == v,
{
    let s = order.to_set();
    let full = Set::new(|x: usize| x < n);
    assert(s.subset_of(full));
    vstd::set_lib::lemma_int_range(0, n as int);
    assert(order.no_duplicates());
    order.unique_seq_to_set();
    assert(full.finite() && full.len() == n) by {
        lemma_usize_range_set(n);
    }
    if !s.contains(v) {
        vstd::set_lib::lemma_len_subset(s, full.remove(v));
        assert(full.remove(v).len() == n - 1);
    }
}

proof fn lemma_usize_range_set(n: nat)
    requires
        n <= usize::MAX + 1,
    ensures
        Set::new(|x: usize| x < n).finite(),
        Set::new(|x: usize| x < n).len() == n,
    decreases n,
{
    if n == 0 {
        assert(Set::new(|x: usize| x < n) =~= Set::empty());
    } else {
        lemma_usize_range_set((n - 1) as nat);
        assert(Set::new(|x: usize| x < n) =~= Set::new(|x: usize| x < (n - 1) as nat).insert(
            (n - 1) as usize,
        ));
    }
}

/// The first address past a placed asset.
pub open spec fn placed_end(files: Seq<FileParameters>, p: Placement) -> int {
    p.address + files[p.file as int].size
}

/// Bytes used by a run of placements: each one's padding plus its size.
pub open spec fn consumed(files: Seq<FileParameters>, ps: Seq<Placement>) -> int
    decreases ps.len(),
{
    if ps.len() == 0 {
        0
    } else {
        ps[0].waste + files[ps[0].file as int].size + consumed(files, ps.drop_first())
    }
}

/// Placements from `start` up to `end`: each asset at most once, aligned,
/// in ascending address order without overlap, and the span from `start`
/// to `end` made of the sizes and the recorded padding alone.
pub open spec fn well_placed(files: Seq<FileParameters>, ps: Seq<Placement>, start: int, end: int) -> bool {
    &&& forall|k: int| 0 <= k < ps.len() ==> #[trigger] ps[k].file < files.len()
    &&& forall|k: int, l: int| 0 <= k < l < ps.len() ==> ps[k].file != ps[l].file
    &&& forall|k: int|
        0 <= k < ps.len() ==> (#[trigger] ps[k]).address as int % files[ps[k].file as int].alignment as int
            == 0
    &&& forall|k: int| 0 <= k < ps.len() ==> start <= (#[trigger] ps[k]).address && placed_end(files, ps[k]) <= end
    &&& forall|k: int, l: int| 0 <= k < l < ps.len() ==> placed_end(files, ps[k]) <= ps[l].address
    &&& end == start + consumed(files, ps)
}

/// The greedy plan places each asset of `rem` exactly once, each at a
/// multiple of its alignment, without overlap, and ends exactly after the
/// sum of the sizes and of the recorded padding.
pub proof fn lemma_plan_well_placed(files: Seq<FileParameters>, rem: Seq<usize>, a: int)
    requires
        a >= 0,
        forall|i: int| 0 <= i < files.len() ==> files[i].alignment >= 1,
        forall|j: int| 0 <= j < rem.len() ==> rem[j] < files.len(),
        forall|i: int, j: int| 0 <= i < j < rem.len() ==> rem[i] != rem[j],
        a + extent(files, rem) <= usize::MAX,
    ensures
        plan(files, rem, a).len() == rem.len(),
        forall|k: int| 0 <= k < rem.len() ==> rem.contains(#[trigger] plan(files, rem, a)[k].file),
        well_placed(files, plan(files, rem, a), a, plan_end(files, rem, a)),
        plan_end(files, rem, a) <= usize::MAX,
    decreases rem.len(),
{
    lemma_extent_nonneg(files, rem);
    if rem.len() > 0 {
        let i = choice(files, rem, a);
        lemma_best_among_range(files, rem, a, rem.len() as int);
        let f = files[rem[i] as int];
        let at = align_up(a, f.alignment as int);
        lemma_align_up(a, f.alignment as int);
        let rest_rem = rem.remove(i);
        lemma_extent_remove(files, rem, i);
        lemma_extent_nonneg(files, rest_rem);
        let na = at + f.size;
        assert(forall|j: int| 0 <= j < rest_rem.len() ==> #[trigger] rest_rem[j] == rem[if j < i { j } else { j + 1 }]);
        lemma_plan_well_placed(files, rest_rem, na);
        let rest = plan(files, rest_rem, na);
        let head = Placement { file: rem[i], address: at as usize, waste: (at - a) as usize };
        let ps = plan(files, rem, a);
        assert(ps == seq![head] + rest);
        assert(ps.drop_first() =~= rest);
        assert forall|k: int| 0 <= k < rem.len() implies rem.contains(#[trigger] ps[k].file) by {
            if k > 0 {
                assert(ps[k] == rest[k - 1]);
                assert(rest_rem.contains(rest[k - 1].file));
                let j = choose|j: int| 0 <= j < rest_rem.len() && rest_rem[j] == rest[k - 1].file;
                assert(rem[if j < i { j } else { j + 1 }] == ps[k].file);
            } else {
                assert(rem[i] == ps[k].file);
            }
        }
        assert forall|k: int, l: int| 0 <= k < l < ps.len() implies ps[k].file != ps[l].file by {
            assert(ps[l] == rest[l - 1]);
            if k == 0 {
                assert(rest_rem.contains(rest[l - 1].file));
                let j = choose|j: int| 0 <= j < rest_rem.len() && rest_rem[j] == rest[l - 1].file;
                assert(rem[if j < i { j } else { j + 1 }] == ps[l].file);
            } else {
                assert(ps[k] == rest[k - 1]);
            }
        }
        assert forall|k: int, l: int| 0 <= k < l < ps.len() implies placed_end(files, ps[k]) <= ps[l].address by {
            assert(ps[l] == rest[l - 1]);
            if k > 0 {
                assert(ps[k] == rest[k - 1]);
            }
        }
        assert forall|k: int| 0 <= k < ps.len() implies a <= (#[trigger] ps[k]).address && placed_end(files, ps[k]) <= plan_end(files, rem, a) by {
            if k > 0 {
                assert(ps[k] == rest[k - 1]);
            }
        }
        assert forall|k: int| 0 <= k < ps.len() implies (#[trigger] ps[k]).address as int % files[ps[k].file as int].alignment as int == 0 by {
            if k > 0 {
                assert(ps[k] == rest[k - 1]);
            }
        }
    }
}

fn align_up_exec(a: usize, al: usize) -> (r: usize)
    requires
        al >= 1,
        a + al - 1 <= usize::MAX,
    ensures
        r == align_up(a as int, al as int),
        a <= r <= a + al - 1,
{
    proof {
        lemma_align_up(a as int, al as int);
    }
    ((a + (al - 1)) / al) * al
}

/// Places every asset, from address 0, in the sort order of `precedes`,
/// letting a better-fitting later asset go first where the head would
/// leave padding.
pub fn arrange_files_in_memory(files: &Vec<FileParameters>) -> (arr: Arrangement)
    requires
        arrangeable(files@),
    ensures
        arr.placements@ == plan(files@, arr.order@, 0),
        arr.end_address == plan_end(files@, arr.order@, 0),
        is_permutation(arr.order@, files@.len()),
        sorted_by_precedence(files@, arr.order@),
        arr.placements@.len() == files@.len(),
        well_placed(files@, arr.placements@, 0, arr.end_address as int),
{
    let order = sort_order(files);
    let mut rem = order.clone();
    assert(rem@ =~= order@);
    let mut placements: Vec<Placement> = Vec::new();
    let mut address: usize = 0;
    proof {
        lemma_extent_permutation(files@, order@);
    }
    while rem.len() > 0
        invariant
            arrangeable(files@),
            forall|j: int| 0 <= j < rem@.len() ==> rem@[j] < files@.len(),
            address + extent(files@, rem@) <= usize::MAX,
            placements@ + plan(files@, rem@, address as int) == plan(files@, order@, 0),
            plan_end(files@, rem@, address as int) == plan_end(files@, order@, 0),
        decreases rem@.len(),
    {
        let ghost r = rem@;
        let head = &files[rem[0]];
        proof {
            lemma_extent_remove(files@, r, 0);
            lemma_extent_nonneg(files@, r.remove(0));
        }
        let next = align_up_exec(address, head.alignment);
        let gap = next - address;
        let mut best: usize = 0;
        let mut best_waste: usize = gap;
        if gap != 0 && rem.len() > 1 {
            let mut i: usize = 1;
            while i < rem.len()
                invariant
                    arrangeable(files@),
                    forall|j: int| 0 <= j < r.len() ==> r[j] < files@.len(),
                    rem@ == r,
                    *head == files@[r[0] as int],
                    address + extent(files@, r) <= usize::MAX,
                    1 <= i <= r.len(),
                    best == best_among(files@, r, address as int, i as int),
                    best_waste == candidate_waste(files@, r, address as int, best as int),
                decreases r.len() - i,
            {
                let c = &files[rem[i]];
                proof {
                    lemma_extent_two(files@, r, i as int);
                }
                let nc = align_up_exec(address, c.alignment);
                let after = nc + c.size;
                let realigned = align_up_exec(after, head.alignment);
                let w = (nc - address) + (realigned - after);
                if w < best_waste {
                    best = i;
                    best_waste = w;
                }
                i = i + 1;
            }
        }
        proof {
            lemma_best_among_range(files@, r, address as int, r.len() as int);
            lemma_extent_remove(files@, r, best as int);
            lemma_extent_nonneg(files@, r.remove(best as int));
        }
        let f = rem[best];
        let at = align_up_exec(address, files[f].alignment);
        placements.push(Placement { file: f, address: at, waste: at - address });
        rem.remove(best);
        address = at + files[f].size;
        proof {
            assert(forall|j: int| 0 <= j < rem@.len() ==> #[trigger] rem@[j] == r[if j < best { j } else { j + 1 }]);
        }
    }
    assert(placements@ =~= placements@ + plan(files@, rem@, address as int));
    proof {
        lemma_extent_permutation(files@, order@);
        lemma_plan_well_placed(files@, order@, 0);
    }
    Arrangement { placements, end_address: address, order }
}

} // verus!
