use vstd::arithmetic::power2::{lemma_pow2_strictly_increases, pow2};
use vstd::prelude::*;

use crate::bits::{
    as_bits, encompassing_bits, entry_at, entry_in, lemma_encompassing, lemma_encompassing_le,
    lemma_word_count_covers, pack_entries, packs, per_word, spec_encompassing_bits, word_count,
};

verus! {

/// A registry id that a paletted container can hold.
pub trait RegistryValue: Copy + Sized {
    /// The value of an unset cell.
    spec fn spec_default() -> Self;

    /// The id as a number.
    spec fn spec_id(&self) -> nat;

    fn default_value() -> (r: Self)
        ensures
            r == Self::spec_default(),
    ;

    fn same(&self, other: &Self) -> (r: bool)
        ensures
            r == (*self == *other),
    ;

    fn id(&self) -> (r: u64)
        ensures
            r == self.spec_id(),
    ;
}

impl RegistryValue for u8 {
    open spec fn spec_default() -> u8 {
        0
    }

    open spec fn spec_id(&self) -> nat {
        *self as nat
    }

    fn default_value() -> (r: u8) {
        0
    }

    fn same(&self, other: &u8) -> (r: bool) {
        *self == *other
    }

    fn id(&self) -> (r: u64) {
        *self as u64
    }
}

impl RegistryValue for u16 {
    open spec fn spec_default() -> u16 {
        0
    }

    open spec fn spec_id(&self) -> nat {
        *self as nat
    }

    fn default_value() -> (r: u16) {
        0
    }

    fn same(&self, other: &u16) -> (r: bool) {
        *self == *other
    }

    fn id(&self) -> (r: u64) {
        *self as u64
    }
}

/// How many times `v` occurs in `s`.
pub open spec fn count_in<V>(s: Seq<V>, v: V) -> nat
    decreases s.len(),
{
    if s.len() == 0 {
        0
    } else {
        count_in(s.drop_last(), v) + if s.last() == v {
            1nat
        } else {
            0nat
        }
    }
}

/// The values of a palette with their counts, in palette order.
pub open spec fn keys_of<V>(counts: Seq<(V, u16)>) -> Seq<V> {
    counts.map_values(|e: (V, u16)| e.0)
}

/// Distinct values, each counted exactly, covering every cell.
pub open spec fn counts_match<V>(counts: Seq<(V, u16)>, cells: Seq<V>) -> bool {
    &&& keys_of(counts).no_duplicates()
    &&& forall|j: int|
        0 <= j < counts.len() ==> #[trigger] counts[j].1 as nat == count_in(cells, counts[j].0)
            && counts[j].1 > 0
    &&& forall|k: int| 0 <= k < cells.len() ==> keys_of(counts).contains(#[trigger] cells[k])
}

proof fn lemma_count_bounded<V>(s: Seq<V>, v: V)
    ensures
        count_in(s, v) <= s.len(),
    decreases s.len(),
{
    if s.len() > 0 {
        lemma_count_bounded(s.drop_last(), v);
    }
}

proof fn lemma_count_positive<V>(s: Seq<V>, v: V)
    ensures
        count_in(s, v) > 0 <==> exists|k: int| 0 <= k < s.len() && s[k] == v,
    decreases s.len(),
{
    if s.len() > 0 {
        lemma_count_positive(s.drop_last(), v);
        if count_in(s.drop_last(), v) > 0 {
            let k = choose|k: int| 0 <= k < s.drop_last().len() && s.drop_last()[k] == v;
            assert(s[k] == v);
        }
        if exists|k: int| 0 <= k < s.len() && s[k] == v {
            let k = choose|k: int| 0 <= k < s.len() && s[k] == v;
            if k < s.len() - 1 {
                assert(s.drop_last()[k] == v);
            }
        }
    }
}

proof fn lemma_count_update<V>(s: Seq<V>, i: int, w: V, v: V)
    requires
        0 <= i < s.len(),
    ensures
        count_in(s.update(i, w), v) + (if s[i] == v {
            1nat
        } else {
            0nat
        }) == count_in(s, v) + (if w == v {
            1nat
        } else {
            0nat
        }),
    decreases s.len(),
{
    let t = s.update(i, w);
    if i == s.len() - 1 {
        assert(t.drop_last() =~= s.drop_last());
    } else {
        lemma_count_update(s.drop_last(), i, w, v);
        assert(t.drop_last() =~= s.drop_last().update(i, w));
    }
}

proof fn lemma_count_two<V>(s: Seq<V>, i: int, k: int, v: V)
    requires
        0 <= i < s.len(),
        0 <= k < s.len(),
        i != k,
        s[i] == v,
        s[k] == v,
    ensures
        count_in(s, v) >= 2,
    decreases s.len(),
{
    let t = s.drop_last();
    if i == s.len() - 1 {
        lemma_count_positive(t, v);
        assert(t[k] == v);
    } else if k == s.len() - 1 {
        lemma_count_positive(t, v);
        assert(t[i] == v);
    } else {
        lemma_count_two(t, i, k, v);
    }
}

proof fn lemma_count_prefix<V>(s: Seq<V>, k: int, v: V)
    requires
        0 <= k < s.len(),
    ensures
        count_in(s.subrange(0, k + 1), v) == count_in(s.subrange(0, k), v) + (if s[k] == v {
            1nat
        } else {
            0nat
        }),
{
    assert(s.subrange(0, k + 1).drop_last() =~= s.subrange(0, k));
}

proof fn lemma_count_constant<V>(n: nat, v: V, w: V)
    ensures
        count_in(Seq::new(n, |_i: int| v), w) == (if v == w {
            n
        } else {
            0
        }),
    decreases n,
{
    if n > 0 {
        lemma_count_constant((n - 1) as nat, v, w);
        assert(Seq::new(n, |_i: int| v).drop_last() =~= Seq::new((n - 1) as nat, |_i: int| v));
    }
}

/// A value missing from the palette occurs in no cell.
proof fn lemma_absent_not_counted<V>(counts: Seq<(V, u16)>, cells: Seq<V>, v: V)
    requires
        counts_match(counts, cells),
        !keys_of(counts).contains(v),
    ensures
        count_in(cells, v) == 0,
{
    lemma_count_positive(cells, v);
    if count_in(cells, v) > 0 {
        let k = choose|k: int| 0 <= k < cells.len() && cells[k] == v;
        assert(keys_of(counts).contains(cells[k]));
    }
}

/// The side length of the cube and its volume: the volume fits the counts.
pub open spec fn dim_ok(dim: nat) -> bool {
    1 <= dim <= 16
}

pub open spec fn volume(dim: nat) -> nat {
    dim * dim * dim
}

/// The cell at `(x, y, z)` is at this place of the cells in y, z, x order.
pub open spec fn cell_index(dim: nat, x: int, y: int, z: int) -> int {
    (y * dim + z) * dim + x
}

proof fn lemma_volume(dim: nat)
    requires
        dim_ok(dim),
    ensures
        1 <= volume(dim) <= 4096,
        dim * dim <= 256,
{
    assert(dim * dim <= 256) by (nonlinear_arith)
        requires
            1 <= dim <= 16,
    ;
    assert(1 <= dim * dim * dim <= 4096) by (nonlinear_arith)
        requires
            1 <= dim <= 16,
    ;
}

proof fn lemma_cell_index(dim: nat, x: int, y: int, z: int)
    requires
        dim_ok(dim),
        0 <= x < dim,
        0 <= y < dim,
        0 <= z < dim,
    ensures
        0 <= cell_index(dim, x, y, z) < volume(dim),
        0 <= y * dim <= 240,
        0 <= (y * dim + z) * dim <= 4080,
{
    assert(0 <= y * dim <= 240 && 0 <= (y * dim + z) * dim <= 4080) by (nonlinear_arith)
        requires
            0 <= z < dim,
            0 <= y < dim,
            dim <= 16,
    ;
    assert(0 <= (y * dim + z) * dim + x < dim * dim * dim) by (nonlinear_arith)
        requires
            0 <= x < dim,
            0 <= y < dim,
            0 <= z < dim,
    ;
}

/// The index in `counts` of the entry for `v`, if there is one.
fn find_key<V: RegistryValue>(counts: &Vec<(V, u16)>, v: V) -> (r: Option<usize>)
    ensures
        r matches Some(j) ==> j < counts@.len() && counts@[j as int].0 == v,
        r is None ==> !keys_of(counts@).contains(v),
{
    let mut j: usize = 0;
    while j < counts.len()
        invariant
            j <= counts@.len(),
            forall|k: int| 0 <= k < j ==> counts@[k].0 != v,
        decreases counts@.len() - j,
    {
        if counts[j].0.same(&v) {
            return Some(j);
        }
        j = j + 1;
    }
    proof {
        if keys_of(counts@).contains(v) {
            let k = choose|k: int| 0 <= k < keys_of(counts@).len() && keys_of(counts@)[k] == v;
            assert(counts@[k].0 == v);
        }
    }
    None
}

/// The cells of a cube that holds two or more distinct values, with the
/// count of each value.
#[derive(Clone, Debug)]
pub struct HeterogeneousPaletteData<V, const DIM: usize> {
    cube: Vec<V>,
    counts: Vec<(V, u16)>,
}

impl<V: RegistryValue, const DIM: usize> HeterogeneousPaletteData<V, DIM> {
    pub closed spec fn cells(&self) -> Seq<V> {
        self.cube@
    }

    pub closed spec fn counted(&self) -> Seq<(V, u16)> {
        self.counts@
    }

    pub closed spec fn wf(&self) -> bool {
        &&& dim_ok(DIM as nat)
        &&& self.cube@.len() == volume(DIM as nat)
        &&& self.counts@.len() >= 2
        &&& counts_match(self.counts@, self.cube@)
    }
}

/// A cube of registry ids, stored as one value when all cells agree and as
/// the cells with a count of each value otherwise.
#[derive(Clone, Debug)]
pub enum PalettedContainer<V, const DIM: usize> {
    Homogeneous(V),
    Heterogeneous(Box<HeterogeneousPaletteData<V, DIM>>),
}

/// Builds the counts of the values of `cube`, in order of first occurrence.
fn count_values<V: RegistryValue>(cube: &Vec<V>) -> (r: Vec<(V, u16)>)
    requires
        cube@.len() <= 4096,
    ensures
        counts_match(r@, cube@),
        cube@.len() > 0 ==> r@.len() >= 1,
{
    let mut counts: Vec<(V, u16)> = Vec::new();
    let mut k: usize = 0;
    while k < cube.len()
        invariant
            k <= cube@.len() <= 4096,
            counts_match(counts@, cube@.subrange(0, k as int)),
            k > 0 ==> counts@.len() >= 1,
        decreases cube@.len() - k,
    {
        let v = cube[k];
        let ghost before = counts@;
        let ghost prefix = cube@.subrange(0, k as int);
        let ghost next = cube@.subrange(0, k + 1);
        proof {
            assert forall|w: V| #[trigger] count_in(next, w) == count_in(prefix, w) + (if v == w {
                1nat
            } else {
                0nat
            }) by {
                lemma_count_prefix(cube@, k as int, w);
            }
            lemma_count_bounded(prefix, v);
        }
        match find_key(&counts, v) {
            Some(j) => {
                let (key, c) = counts[j];
                assert(c as nat == count_in(prefix, v));
                counts.set(j, (key, c + 1));
                proof {
                    assert(keys_of(counts@) =~= keys_of(before));
                    assert forall|m: int| 0 <= m < k + 1 implies keys_of(counts@).contains(
                        #[trigger] next[m],
                    ) by {
                        if m < k {
                            assert(prefix[m] == next[m]);
                        } else {
                            assert(keys_of(counts@)[j as int] == v);
                        }
                    }
                    assert forall|m: int| 0 <= m < counts@.len() implies #[trigger] counts@[m].1
                        as nat == count_in(next, counts@[m].0) && counts@[m].1 > 0 by {
                        if m != j {
                            assert(keys_of(before)[m] != keys_of(before)[j as int]);
                        }
                    }
                }
            },
            None => {
                proof {
                    lemma_absent_not_counted(before, prefix, v);
                }
                counts.push((v, 1));
                proof {
                    assert(keys_of(counts@) =~= keys_of(before).push(v));
                    assert forall|m: int| 0 <= m < k + 1 implies keys_of(counts@).contains(
                        #[trigger] next[m],
                    ) by {
                        if m < k {
                            assert(prefix[m] == next[m]);
                            assert(keys_of(before).contains(prefix[m]));
                            let q = choose|q: int|
                                0 <= q < keys_of(before).len() && keys_of(before)[q] == prefix[m];
                            assert(keys_of(counts@)[q] == prefix[m]);
                        } else {
                            assert(keys_of(counts@)[before.len() as int] == v);
                        }
                    }
                    assert forall|m: int| 0 <= m < counts@.len() implies #[trigger] counts@[m].1
                        as nat == count_in(next, counts@[m].0) && counts@[m].1 > 0 by {
                        if m < before.len() {
                            assert(keys_of(before)[m] == counts@[m].0);
                            if counts@[m].0 == v {
                                assert(keys_of(before).contains(v));
                            }
                        }
                    }
                }
            },
        }
        k = k + 1;
    }
    assert(cube@.subrange(0, cube@.len() as int) =~= cube@);
    counts
}

impl<V: RegistryValue, const DIM: usize> PalettedContainer<V, DIM> {
    /// The cells in y, z, x order.
    pub open spec fn cells(&self) -> Seq<V> {
        match self {
            PalettedContainer::Homogeneous(v) => Seq::new(volume(DIM as nat), |_i: int| *v),
            PalettedContainer::Heterogeneous(data) => data.cells(),
        }
    }

    /// The distinct values with the number of cells that hold each.
    pub open spec fn counted(&self) -> Seq<(V, u16)> {
        match self {
            PalettedContainer::Homogeneous(v) => seq![(*v, volume(DIM as nat) as u16)],
            PalettedContainer::Heterogeneous(data) => data.counted(),
        }
    }

    /// The container's invariant: a homogeneous container has one value, a
    /// heterogeneous one at least two, each counted exactly.
    pub open spec fn wf(&self) -> bool {
        &&& dim_ok(DIM as nat)
        &&& match self {
            PalettedContainer::Homogeneous(_) => true,
            PalettedContainer::Heterogeneous(data) => data.wf(),
        }
    }

    /// The container of the given cells.
    fn from_cube(cube: Vec<V>) -> (r: Self)
        requires
            dim_ok(DIM as nat),
            cube@.len() == volume(DIM as nat),
        ensures
            r.wf(),
            r.cells() == cube@,
    {
        proof {
            lemma_volume(DIM as nat);
        }
        let counts = count_values(&cube);
        if counts.len() == 1 {
            let v = counts[0].0;
            proof {
                assert forall|k: int| 0 <= k < cube@.len() implies cube@[k] == v by {
                    assert(keys_of(counts@).contains(cube@[k]));
                }
                assert(Seq::new(volume(DIM as nat), |_i: int| v) =~= cube@);
            }
            PalettedContainer::Homogeneous(v)
        } else {
            PalettedContainer::Heterogeneous(Box::new(HeterogeneousPaletteData { cube, counts }))
        }
    }
}

impl<V: RegistryValue, const DIM: usize> HeterogeneousPaletteData<V, DIM> {
    fn get(&self, x: usize, y: usize, z: usize) -> (r: V)
        requires
            self.wf(),
            x < DIM,
            y < DIM,
            z < DIM,
        ensures
            r == self.cells()[cell_index(DIM as nat, x as int, y as int, z as int)],
    {
        proof {
            lemma_cell_index(DIM as nat, x as int, y as int, z as int);
        }
        self.cube[(y * DIM + z) * DIM + x]
    }

    /// Sets one cell and keeps the counts; returns the value it held. The
    /// result may hold a single value.
    fn set(&mut self, x: usize, y: usize, z: usize, value: V) -> (r: V)
        requires
            old(self).wf(),
            x < DIM,
            y < DIM,
            z < DIM,
        ensures
            r == old(self).cells()[cell_index(DIM as nat, x as int, y as int, z as int)],
            final(self).cells() == old(self).cells().update(
                cell_index(DIM as nat, x as int, y as int, z as int),
                value,
            ),
            final(self).cells().len() == volume(DIM as nat),
            counts_match(final(self).counted(), final(self).cells()),
            final(self).counted().len() >= 1,
    {
        proof {
            lemma_cell_index(DIM as nat, x as int, y as int, z as int);
            lemma_volume(DIM as nat);
        }
        let i = (y * DIM + z) * DIM + x;
        let previous = self.cube[i];
        let ghost s0 = self.cube@;
        let ghost c0 = self.counts@;
        let ghost s1 = s0.update(i as int, value);
        proof {
            assert forall|w: V| #[trigger] count_in(s1, w) + (if previous == w {
                1nat
            } else {
                0nat
            }) == count_in(s0, w) + (if value == w {
                1nat
            } else {
                0nat
            }) by {
                lemma_count_update(s0, i as int, value, w);
            }
            lemma_count_bounded(s1, value);
            assert(keys_of(c0).contains(s0[i as int]));
        }
        // Take the old value out of the counts.
        let ghost mut jr: int = 0;
        match find_key(&self.counts, previous) {
            Some(j) => {
                proof {
                    jr = j as int;
                }
                let (key, c) = self.counts[j];
                if c == 1 {
                    self.counts.remove(j);
                    proof {
                        assert(keys_of(self.counts@) =~= keys_of(c0).remove(j as int));
                    }
                } else {
                    self.counts.set(j, (key, c - 1));
                    proof {
                        assert(keys_of(self.counts@) =~= keys_of(c0));
                    }
                }
            },
            None => {
                proof {
                    assert(false);
                }
            },
        }
        let ghost c1 = self.counts@;
        proof {
            // Every value but the old one keeps its count; the old one is
            // gone exactly when no other cell holds it.
            assert forall|m: int| 0 <= m < c1.len() implies #[trigger] c1[m].1 as nat + (if c1[m].0
                == previous {
                1nat
            } else {
                0nat
            }) == count_in(s0, c1[m].0) && c1[m].1 > 0 by {
                let j = jr;
                if c0[j].1 == 1 {
                    let q = if m < j {
                        m
                    } else {
                        m + 1
                    };
                    assert(c1[m] == c0[q]);
                    assert(keys_of(c0)[q] != keys_of(c0)[j]);
                } else {
                    if m != j {
                        assert(keys_of(c0)[m] != keys_of(c0)[j]);
                    }
                }
            }
            assert(keys_of(c1).no_duplicates());
            assert forall|k: int| 0 <= k < s0.len() && k != i implies keys_of(c1).contains(
                #[trigger] s0[k],
            ) by {
                let q = choose|q: int| 0 <= q < keys_of(c0).len() && keys_of(c0)[q] == s0[k];
                let j = jr;
                if q == j && c0[j].1 == 1 {
                    // the old value was in cell i alone
                    lemma_count_two(s0, i as int, k, previous);
                } else if c0[j].1 == 1 {
                    let m = if q < j {
                        q
                    } else {
                        q - 1
                    };
                    assert(keys_of(c1)[m] == s0[k]);
                } else {
                    assert(keys_of(c1)[q] == s0[k]);
                }
            }
        }
        self.cube.set(i, value);
        // Put the new value in.
        match find_key(&self.counts, value) {
            Some(j) => {
                let (key, c) = self.counts[j];
                proof {
                    assert(c1[j as int].1 as nat + (if value == previous {
                        1nat
                    } else {
                        0nat
                    }) == count_in(s0, value));
                }
                self.counts.set(j, (key, c + 1));
                proof {
                    assert(keys_of(self.counts@) =~= keys_of(c1));
                    assert forall|m: int| 0 <= m < self.counts@.len() implies #[trigger] self.counts@[m].1
                        as nat == count_in(s1, self.counts@[m].0) && self.counts@[m].1 > 0 by {
                        if m != j {
                            assert(keys_of(c1)[m] != keys_of(c1)[j as int]);
                        }
                    }
                    assert forall|k: int| 0 <= k < s1.len() implies keys_of(self.counts@).contains(
                        #[trigger] s1[k],
                    ) by {
                        if k == i {
                            assert(keys_of(self.counts@)[j as int] == value);
                        } else {
                            assert(s1[k] == s0[k]);
                        }
                    }
                }
            },
            None => {
                proof {
                    if value != previous {
                        lemma_count_positive(s0, value);
                        if count_in(s0, value) > 0 {
                            let k = choose|k: int| 0 <= k < s0.len() && s0[k] == value;
                            assert(k != i);
                            assert(keys_of(c1).contains(s0[k]));
                        }
                    } else {
                        let j = jr;
                        if c0[j].1 != 1 {
                            assert(keys_of(c1)[j] == previous);
                        }
                    }
                }
                self.counts.push((value, 1));
                proof {
                    assert(keys_of(self.counts@) =~= keys_of(c1).push(value));
                    assert forall|m: int| 0 <= m < self.counts@.len() implies #[trigger] self.counts@[m].1
                        as nat == count_in(s1, self.counts@[m].0) && self.counts@[m].1 > 0 by {
                        if m < c1.len() {
                            assert(keys_of(c1)[m] == c1[m].0);
                            if c1[m].0 == value {
                                assert(keys_of(c1).contains(value));
                            }
                        }
                    }
                    assert forall|k: int| 0 <= k < s1.len() implies keys_of(self.counts@).contains(
                        #[trigger] s1[k],
                    ) by {
                        if k == i {
                            assert(keys_of(self.counts@)[c1.len() as int] == value);
                        } else {
                            assert(s1[k] == s0[k]);
                            assert(keys_of(c1).contains(s0[k]));
                            let q = choose|q: int|
                                0 <= q < keys_of(c1).len() && keys_of(c1)[q] == s0[k];
                            assert(keys_of(self.counts@)[q] == s0[k]);
                        }
                    }
                }
            },
        }
        proof {
            assert(self.cube@ == s1);
            assert(keys_of(self.counts@).contains(s1[i as int]));
        }
        previous
    }
}

/// `words` holds, for each cell, the place of its value in `palette`, at
/// `bits` bits an entry; every other bit is clear.
pub open spec fn encodes<V>(words: Seq<i64>, palette: Seq<V>, cells: Seq<V>, bits: nat) -> bool {
    &&& words.len() == word_count(cells.len(), bits)
    &&& forall|i: nat|
        i < cells.len() ==> (#[trigger] entry_at(words, bits, i) as int) < palette.len()
            && palette[entry_at(words, bits, i) as int] == cells[i as int]
    &&& forall|i: nat|
        cells.len() <= i < words.len() * per_word(bits) ==> #[trigger] entry_at(words, bits, i)
            == 0
    &&& per_word(bits) * bits < 64 ==> forall|w: int|
        0 <= w < words.len() ==> #[trigger] as_bits(words[w]) >> ((per_word(bits) * bits) as u64)
            == 0
}

/// The cell that entry `i` of `words` names: the palette value it indexes,
/// or the default where the words run out or the index is past the palette.
pub open spec fn decoded_cell<V: RegistryValue>(
    palette: Seq<V>,
    words: Seq<i64>,
    bits: nat,
    i: nat,
) -> V {
    if i < words.len() * per_word(bits) && (entry_at(words, bits, i) as int) < palette.len() {
        palette[entry_at(words, bits, i) as int]
    } else {
        V::spec_default()
    }
}

/// The width that a palette of `len` entries is read at.
pub open spec fn read_bits(len: nat, min_bits: nat) -> nat {
    if spec_encompassing_bits(len) >= min_bits {
        spec_encompassing_bits(len)
    } else {
        min_bits
    }
}

/// The `n` cells that a palette and its packed words stand for.
pub open spec fn decoded<V: RegistryValue>(
    palette: Seq<V>,
    words: Seq<i64>,
    min_bits: nat,
    n: nat,
) -> Seq<V> {
    if palette.len() == 0 {
        Seq::new(n, |_i: int| V::spec_default())
    } else if palette.len() == 1 {
        Seq::new(n, |_i: int| palette[0])
    } else {
        Seq::new(
            n,
            |i: int| decoded_cell(palette, words, read_bits(palette.len(), min_bits), i as nat),
        )
    }
}

impl<V: RegistryValue, const DIM: usize> PalettedContainer<V, DIM> {
    /// The fewest bits that tell the container's values apart.
    pub open spec fn natural_bits(&self) -> nat {
        match self {
            PalettedContainer::Homogeneous(_) => 0,
            PalettedContainer::Heterogeneous(data) => spec_encompassing_bits(
                data.counted().len(),
            ),
        }
    }

    /// What `to_palette_and_packed_data` gives: the distinct values in
    /// palette order and, unless there is only one, the packed places.
    pub open spec fn is_packed_form(&self, bits: nat, palette: Seq<V>, words: Seq<i64>) -> bool {
        &&& palette == keys_of(self.counted())
        &&& match self {
            PalettedContainer::Homogeneous(_) => words.len() == 0,
            PalettedContainer::Heterogeneous(_) => encodes(words, palette, self.cells(), bits),
        }
    }

    /// The value at `(x, y, z)`.
    pub fn get(&self, x: usize, y: usize, z: usize) -> (r: V)
        requires
            self.wf(),
            x < DIM,
            y < DIM,
            z < DIM,
        ensures
            r == self.cells()[cell_index(DIM as nat, x as int, y as int, z as int)],
    {
        proof {
            lemma_cell_index(DIM as nat, x as int, y as int, z as int);
        }
        match self {
            PalettedContainer::Homogeneous(value) => *value,
            PalettedContainer::Heterogeneous(data) => data.get(x, y, z),
        }
    }

    /// Sets the value at `(x, y, z)` and returns the value it replaced. The
    /// container turns heterogeneous when a second value comes in and
    /// homogeneous when only one is left.
    pub fn set(&mut self, x: usize, y: usize, z: usize, value: V) -> (r: V)
        requires
            old(self).wf(),
            x < DIM,
            y < DIM,
            z < DIM,
        ensures
            final(self).wf(),
            r == old(self).cells()[cell_index(DIM as nat, x as int, y as int, z as int)],
            final(self).cells() == old(self).cells().update(
                cell_index(DIM as nat, x as int, y as int, z as int),
                value,
            ),
    {
        proof {
            lemma_cell_index(DIM as nat, x as int, y as int, z as int);
            lemma_volume(DIM as nat);
        }
        let vol = DIM * DIM * DIM;
        match self {
            PalettedContainer::Homogeneous(previous) => {
                let previous = *previous;
                if !value.same(&previous) {
                    let mut cube: Vec<V> = Vec::new();
                    let mut k: usize = 0;
                    while k < vol
                        invariant
                            k <= vol,
                            vol == volume(DIM as nat),
                            cube@ == Seq::new(k as nat, |_i: int| previous),
                        decreases vol - k,
                    {
                        cube.push(previous);
                        k = k + 1;
                        proof {
                            assert(cube@ =~= Seq::new(k as nat, |_i: int| previous));
                        }
                    }
                    let i = (y * DIM + z) * DIM + x;
                    cube.set(i, value);
                    *self = Self::from_cube(cube);
                }
                previous
            },
            PalettedContainer::Heterogeneous(data) => {
                let previous = data.set(x, y, z, value);
                if data.counts.len() == 1 {
                    let v = data.counts[0].0;
                    proof {
                        let cells = data.cells();
                        assert forall|k: int| 0 <= k < cells.len() implies cells[k] == v by {
                            assert(keys_of(data.counted()).contains(cells[k]));
                        }
                        assert(Seq::new(volume(DIM as nat), |_i: int| v) =~= cells);
                    }
                    *self = PalettedContainer::Homogeneous(v);
                }
                previous
            },
        }
    }

    /// The distinct values and the place of each cell's value among them,
    /// packed at `bits` bits an entry. A homogeneous container gives its
    /// value and no words.
    pub fn to_palette_and_packed_data(&self, bits: u8) -> (r: (Vec<V>, Vec<i64>))
        requires
            self.wf(),
            self.natural_bits() <= bits <= 63,
        ensures
            self.is_packed_form(bits as nat, r.0@, r.1@),
            1 <= r.0@.len() <= volume(DIM as nat),
    {
        proof {
            lemma_counts_match_cells(*self);
        }
        match self {
            PalettedContainer::Homogeneous(value) => {
                let palette = vec![*value];
                proof {
                    assert(palette@ =~= keys_of(self.counted()));
                }
                (palette, Vec::new())
            },
            PalettedContainer::Heterogeneous(data) => {
                proof {
                    lemma_volume(DIM as nat);
                    let n = data.counts@.len();
                    lemma_encompassing(n);
                    if spec_encompassing_bits(n) < bits {
                        lemma_pow2_strictly_increases(spec_encompassing_bits(n), bits as nat);
                    }
                }
                let mut palette: Vec<V> = Vec::new();
                let mut j: usize = 0;
                while j < data.counts.len()
                    invariant
                        j <= data.counts@.len(),
                        palette@ == keys_of(data.counts@).subrange(0, j as int),
                    decreases data.counts@.len() - j,
                {
                    palette.push(data.counts[j].0);
                    j = j + 1;
                    proof {
                        assert(palette@ =~= keys_of(data.counts@).subrange(0, j as int));
                    }
                }
                assert(palette@ =~= keys_of(data.counts@));
                let mut places: Vec<u64> = Vec::new();
                let mut k: usize = 0;
                while k < data.cube.len()
                    invariant
                        self.wf(),
                        *self == PalettedContainer::Heterogeneous(*data),
                        palette@ == keys_of(data.counts@),
                        data.counts@.len() <= pow2(bits as nat),
                        k <= data.cube@.len(),
                        places@.len() == k,
                        forall|m: int|
                            0 <= m < k ==> (#[trigger] places@[m] as int) < palette@.len()
                                && palette@[places@[m] as int] == data.cube@[m],
                    decreases data.cube@.len() - k,
                {
                    let ghost cell = data.cube@[k as int];
                    assert(keys_of(data.counts@).contains(cell));
                    match find_key(&data.counts, data.cube[k]) {
                        Some(j) => {
                            places.push(j as u64);
                        },
                        None => {
                            proof {
                                assert(false);
                            }
                        },
                    }
                    k = k + 1;
                }
                let words = pack_entries(&places, bits);
                proof {
                    let b = bits as nat;
                    let cells = data.cube@;
                    assert(words@.len() == word_count(cells.len(), b));
                    assert forall|i: nat| i < cells.len() implies (#[trigger] entry_at(
                        words@,
                        b,
                        i,
                    ) as int) < palette@.len() && palette@[entry_at(words@, b, i) as int]
                        == cells[i as int] by {
                        lemma_word_count_covers(places@.len(), b);
                        vstd::arithmetic::mul::lemma_mul_is_commutative(
                            words@.len() as int,
                            per_word(b) as int,
                        );
                        assert(places@[i as int] == places@[i as int]);
                    }
                    assert forall|i: nat|
                        cells.len() <= i < words@.len() * per_word(b) implies #[trigger] entry_at(
                        words@,
                        b,
                        i,
                    ) == 0 by {}
                }
                (palette, words)
            },
        }
    }

    /// The container that a palette and its packed words stand for, read at
    /// the larger of the palette's natural width and `minimum_bits_per_entry`.
    /// An empty palette gives the default value; a palette of one value needs
    /// no words. Missing words and indices past the palette read as the
    /// default, extra words are ignored.
    pub fn from_palette_and_packed_data(
        palette: &[V],
        packed_data: &[i64],
        minimum_bits_per_entry: u8,
    ) -> (r: Self)
        requires
            dim_ok(DIM as nat),
            minimum_bits_per_entry <= 63,
            palette@.len() <= 0x8000_0000_0000_0000,
        ensures
            r.wf(),
            r.cells() == decoded(
                palette@,
                packed_data@,
                minimum_bits_per_entry as nat,
                volume(DIM as nat),
            ),
            palette@.len() == 0 ==> r == PalettedContainer::<V, DIM>::Homogeneous(
                V::spec_default(),
            ),
            palette@.len() == 1 ==> r == PalettedContainer::<V, DIM>::Homogeneous(palette@[0]),
    {
        proof {
            lemma_volume(DIM as nat);
        }
        let vol = DIM * DIM * DIM;
        if palette.len() == 0 {
            let r = PalettedContainer::Homogeneous(V::default_value());
            assert(r.cells() =~= decoded(
                palette@,
                packed_data@,
                minimum_bits_per_entry as nat,
                volume(DIM as nat),
            ));
            r
        } else if palette.len() == 1 {
            let r = PalettedContainer::Homogeneous(palette[0]);
            assert(r.cells() =~= decoded(
                palette@,
                packed_data@,
                minimum_bits_per_entry as nat,
                volume(DIM as nat),
            ));
            r
        } else {
            proof {
                vstd::arithmetic::power2::lemma2_to64_rest();
                lemma_encompassing_le(palette@.len(), 63);
            }
            let natural = encompassing_bits(palette.len());
            let bits = if natural >= minimum_bits_per_entry {
                natural
            } else {
                minimum_bits_per_entry
            };
            proof {
                lemma_encompassing(palette@.len());
            }
            let ghost target = decoded(
                palette@,
                packed_data@,
                minimum_bits_per_entry as nat,
                volume(DIM as nat),
            );
            let mut cube: Vec<V> = Vec::new();
            let mut i: usize = 0;
            while i < vol
                invariant
                    1 <= bits <= 63,
                    bits == read_bits(palette@.len(), minimum_bits_per_entry as nat),
                    palette@.len() >= 2,
                    vol == volume(DIM as nat),
                    target == decoded(
                        palette@,
                        packed_data@,
                        minimum_bits_per_entry as nat,
                        volume(DIM as nat),
                    ),
                    i <= vol,
                    cube@ == target.subrange(0, i as int),
                decreases vol - i,
            {
                let v = match entry_in(packed_data, bits, i) {
                    Some(e) => if e < palette.len() as u64 {
                        palette[e as usize]
                    } else {
                        V::default_value()
                    },
                    None => V::default_value(),
                };
                cube.push(v);
                i = i + 1;
                proof {
                    assert(cube@ =~= target.subrange(0, i as int));
                }
            }
            proof {
                assert(cube@ =~= target);
            }
            Self::from_cube(cube)
        }
    }
}

/// Counts match cells: in a well-formed container each listed value is
/// counted exactly, values are listed once, every cell's value is listed,
/// and the container is homogeneous exactly when one value is listed.
pub proof fn lemma_counts_match_cells<V: RegistryValue, const DIM: usize>(
    c: PalettedContainer<V, DIM>,
)
    requires
        c.wf(),
    ensures
        c.cells().len() == volume(DIM as nat),
        counts_match(c.counted(), c.cells()),
        (c is Homogeneous) <==> c.counted().len() == 1,
        1 <= c.counted().len() <= volume(DIM as nat),
        (c is Homogeneous) <==> forall|i: int, j: int|
            0 <= i < c.cells().len() && 0 <= j < c.cells().len() ==> c.cells()[i] == c.cells()[j],
{
    lemma_volume(DIM as nat);
    match c {
        PalettedContainer::Homogeneous(v) => {
            lemma_volume(DIM as nat);
            lemma_count_constant(volume(DIM as nat), v, v);
            let cells = c.cells();
            let counted = c.counted();
            assert(keys_of(counted) =~= seq![v]);
            assert forall|k: int| 0 <= k < cells.len() implies keys_of(counted).contains(
                #[trigger] cells[k],
            ) by {
                assert(keys_of(counted)[0] == cells[k]);
            }
        },
        PalettedContainer::Heterogeneous(data) => {
            let cells = c.cells();
            let counts = c.counted();
            lemma_count_distinct_bound(counts, cells);
            assert(keys_of(counts)[0] != keys_of(counts)[1]);
            assert(counts[0].1 as nat == count_in(cells, counts[0].0) && counts[0].1 > 0);
            assert(counts[1].1 as nat == count_in(cells, counts[1].0) && counts[1].1 > 0);
            lemma_count_positive(cells, counts[0].0);
            lemma_count_positive(cells, counts[1].0);
            let i = choose|i: int| 0 <= i < cells.len() && cells[i] == counts[0].0;
            let j = choose|j: int| 0 <= j < cells.len() && cells[j] == counts[1].0;
            assert(cells[i] != cells[j]);
        },
    }
}

/// Two well-formed containers with the same cells list the same values,
/// each with the same count, and are both homogeneous or both not.
pub proof fn lemma_same_cells_same_counts<V: RegistryValue, const DIM: usize>(
    a: PalettedContainer<V, DIM>,
    b: PalettedContainer<V, DIM>,
)
    requires
        a.wf(),
        b.wf(),
        a.cells() == b.cells(),
    ensures
        (a is Homogeneous) == (b is Homogeneous),
        forall|v: V| keys_of(a.counted()).contains(v) == keys_of(b.counted()).contains(v),
        forall|j: int|
            0 <= j < a.counted().len() ==> #[trigger] a.counted()[j].1 as nat == count_in(
                b.cells(),
                a.counted()[j].0,
            ),
{
    lemma_counts_match_cells(a);
    lemma_counts_match_cells(b);
    let cells = a.cells();
    assert forall|v: V| keys_of(a.counted()).contains(v) == keys_of(b.counted()).contains(v) by {
        lemma_listed_iff_present(a.counted(), cells, v);
        lemma_listed_iff_present(b.counted(), cells, v);
    }
}

proof fn lemma_listed_iff_present<V>(counts: Seq<(V, u16)>, cells: Seq<V>, v: V)
    requires
        counts_match(counts, cells),
    ensures
        keys_of(counts).contains(v) <==> exists|k: int| 0 <= k < cells.len() && cells[k] == v,
{
    lemma_count_positive(cells, v);
    if keys_of(counts).contains(v) {
        let j = choose|j: int| 0 <= j < keys_of(counts).len() && keys_of(counts)[j] == v;
        assert(counts[j].1 as nat == count_in(cells, counts[j].0) && counts[j].1 > 0);
    }
    if exists|k: int| 0 <= k < cells.len() && cells[k] == v {
        let k = choose|k: int| 0 <= k < cells.len() && cells[k] == v;
        assert(keys_of(counts).contains(cells[k]));
    }
}

/// Unpacking what `to_palette_and_packed_data` packed gives the cells back,
/// for any width at least the natural one, when read with that width as the
/// minimum.
pub proof fn lemma_palette_round_trip<V: RegistryValue, const DIM: usize>(
    c: PalettedContainer<V, DIM>,
    bits: nat,
    palette: Seq<V>,
    words: Seq<i64>,
)
    requires
        c.wf(),
        c.natural_bits() <= bits <= 63,
        c.is_packed_form(bits, palette, words),
    ensures
        decoded(palette, words, bits, volume(DIM as nat)) == c.cells(),
{
    let vol = volume(DIM as nat);
    match c {
        PalettedContainer::Homogeneous(v) => {
            assert(palette[0] == v);
            assert(decoded(palette, words, bits, vol) =~= c.cells());
        },
        PalettedContainer::Heterogeneous(data) => {
            assert(palette.len() == data.counted().len());
            assert(read_bits(palette.len(), bits) == bits);
            lemma_word_count_covers(vol, bits);
            vstd::arithmetic::mul::lemma_mul_is_commutative(
                words.len() as int,
                per_word(bits) as int,
            );
            assert(decoded(palette, words, bits, vol) =~= c.cells());
        },
    }
}

/// How a section's values travel on the wire: one value, a palette, or the
/// ids themselves.
#[derive(Clone, Debug)]
pub enum NetworkPalette<V> {
    Single(V),
    Indirect(Vec<V>),
    Direct,
}

/// A container in its wire form: the width byte, the palette and the packed
/// words (whose number the receiver computes from the width).
#[derive(Clone, Debug)]
pub struct NetworkSerialization<V> {
    pub bits_per_entry: u8,
    pub palette: NetworkPalette<V>,
    pub packed_data: Vec<i64>,
}

/// A block container in its disk form; `data` is left out when empty.
#[derive(Clone, Debug)]
pub struct ChunkSectionBlockStates {
    pub data: Option<Vec<i64>>,
    pub palette: Vec<u16>,
}

/// A biome container in its disk form; `data` is left out when empty.
#[derive(Clone, Debug)]
pub struct ChunkSectionBiomes {
    pub data: Option<Vec<i64>>,
    pub palette: Vec<u8>,
}

pub type BlockPalette = PalettedContainer<u16, 16>;

pub type BiomePalette = PalettedContainer<u8, 4>;

pub const BLOCK_DISK_MIN_BITS: u8 = 4;

pub const BLOCK_NETWORK_MIN_MAP_BITS: u8 = 4;

pub const BLOCK_NETWORK_MAX_MAP_BITS: u8 = 8;

pub const BLOCK_NETWORK_MAX_BITS: u8 = 15;

pub const BIOME_DISK_MIN_BITS: u8 = 0;

pub const BIOME_NETWORK_MIN_MAP_BITS: u8 = 1;

pub const BIOME_NETWORK_MAX_MAP_BITS: u8 = 3;

pub const BIOME_NETWORK_MAX_BITS: u8 = 7;

/// The ids of the cells, as numbers.
pub open spec fn ids_of<V: RegistryValue>(cells: Seq<V>) -> Seq<u64> {
    cells.map_values(|v: V| v.spec_id() as u64)
}

pub open spec fn max_nat(a: nat, b: nat) -> nat {
    if a >= b {
        a
    } else {
        b
    }
}

/// The number of cells that hold something other than air (id 0).
pub open spec fn non_air(cells: Seq<u16>) -> nat {
    (cells.len() - count_in(cells, 0u16)) as nat
}

impl<V: RegistryValue, const DIM: usize> PalettedContainer<V, DIM> {
    /// The wire form: width 0 and the single value for one value; past
    /// `max_map` natural bits, the ids packed at `direct` bits with no
    /// palette; otherwise the palette, packed at the natural width but no
    /// fewer than `min_map` bits.
    pub open spec fn is_network_form(
        &self,
        r: NetworkSerialization<V>,
        min_map: nat,
        max_map: nat,
        direct: nat,
    ) -> bool {
        if self.counted().len() == 1 {
            &&& r.bits_per_entry == 0
            &&& r.palette == NetworkPalette::Single(self.counted()[0].0)
            &&& r.packed_data@.len() == 0
        } else if self.natural_bits() > max_map {
            &&& r.bits_per_entry == direct
            &&& r.palette is Direct
            &&& packs(r.packed_data@, ids_of(self.cells()), direct)
        } else {
            &&& r.bits_per_entry == max_nat(self.natural_bits(), min_map)
            &&& r.palette matches NetworkPalette::Indirect(p) && self.is_packed_form(
                r.bits_per_entry as nat,
                p@,
                r.packed_data@,
            )
        }
    }

    /// The fewest bits that tell the container's values apart; 0 when it is
    /// homogeneous.
    pub fn bits_per_entry(&self) -> (r: u8)
        requires
            self.wf(),
        ensures
            r == self.natural_bits(),
            r <= 12,
    {
        match self {
            PalettedContainer::Homogeneous(_) => 0,
            PalettedContainer::Heterogeneous(data) => {
                proof {
                    lemma_volume(DIM as nat);
                    lemma_count_distinct_bound(data.counts@, data.cube@);
                    vstd::arithmetic::power2::lemma2_to64();
                    lemma_encompassing_le(data.counts@.len(), 12);
                }
                encompassing_bits(data.counts.len())
            },
        }
    }

    /// The distinct values with the number of cells that hold each.
    pub fn value_counts(&self) -> (r: Vec<(V, u16)>)
        requires
            self.wf(),
        ensures
            r@ == self.counted(),
    {
        match self {
            PalettedContainer::Homogeneous(value) => {
                proof {
                    lemma_volume(DIM as nat);
                }
                let v = vec![(*value, (DIM * DIM * DIM) as u16)];
                assert(v@ =~= self.counted());
                v
            },
            PalettedContainer::Heterogeneous(data) => {
                let mut out: Vec<(V, u16)> = Vec::new();
                let mut k: usize = 0;
                while k < data.counts.len()
                    invariant
                        k <= data.counts@.len(),
                        out@ == data.counts@.subrange(0, k as int),
                    decreases data.counts@.len() - k,
                {
                    out.push(data.counts[k]);
                    k = k + 1;
                    proof {
                        assert(out@ =~= data.counts@.subrange(0, k as int));
                    }
                }
                assert(out@ =~= data.counts@);
                out
            },
        }
    }

    /// The cells in y, z, x order.
    pub fn cells_in_order(&self) -> (r: Vec<V>)
        requires
            self.wf(),
        ensures
            r@ == self.cells(),
    {
        match self {
            PalettedContainer::Homogeneous(value) => {
                proof {
                    lemma_volume(DIM as nat);
                }
                let vol = DIM * DIM * DIM;
                let mut out: Vec<V> = Vec::new();
                let mut k: usize = 0;
                while k < vol
                    invariant
                        k <= vol,
                        vol == volume(DIM as nat),
                        out@ == Seq::new(k as nat, |_i: int| *value),
                    decreases vol - k,
                {
                    out.push(*value);
                    k = k + 1;
                    proof {
                        assert(out@ =~= Seq::new(k as nat, |_i: int| *value));
                    }
                }
                out
            },
            PalettedContainer::Heterogeneous(data) => {
                let mut out: Vec<V> = Vec::new();
                let mut k: usize = 0;
                while k < data.cube.len()
                    invariant
                        k <= data.cube@.len(),
                        out@ == data.cube@.subrange(0, k as int),
                    decreases data.cube@.len() - k,
                {
                    out.push(data.cube[k]);
                    k = k + 1;
                    proof {
                        assert(out@ =~= data.cube@.subrange(0, k as int));
                    }
                }
                assert(out@ =~= data.cube@);
                out
            },
        }
    }

    fn convert_network_with(&self, min_map: u8, max_map: u8, direct: u8) -> (r:
        NetworkSerialization<V>)
        requires
            self.wf(),
            1 <= min_map <= max_map <= direct <= 63,
            self.natural_bits() > max_map ==> forall|i: int|
                0 <= i < self.cells().len() ==> (#[trigger] self.cells()[i]).spec_id() < pow2(
                    direct as nat,
                ),
        ensures
            self.is_network_form(r, min_map as nat, max_map as nat, direct as nat),
    {
        proof {
            lemma_counts_match_cells(*self);
        }
        match self {
            PalettedContainer::Homogeneous(value) => NetworkSerialization {
                bits_per_entry: 0,
                palette: NetworkPalette::Single(*value),
                packed_data: Vec::new(),
            },
            PalettedContainer::Heterogeneous(data) => {
                let raw = self.bits_per_entry();
                if raw > max_map {
                    proof {
                        lemma_volume(DIM as nat);
                    }
                    let mut ids: Vec<u64> = Vec::new();
                    let mut k: usize = 0;
                    while k < data.cube.len()
                        invariant
                            k <= data.cube@.len() <= 4096,
                            ids@ == ids_of(data.cube@).subrange(0, k as int),
                        decreases data.cube@.len() - k,
                    {
                        ids.push(data.cube[k].id());
                        k = k + 1;
                        proof {
                            assert(ids@ =~= ids_of(data.cube@).subrange(0, k as int));
                        }
                    }
                    proof {
                        assert(ids@ =~= ids_of(data.cube@));
                    }
                    let packed_data = pack_entries(&ids, direct);
                    NetworkSerialization {
                        bits_per_entry: direct,
                        palette: NetworkPalette::Direct,
                        packed_data,
                    }
                } else {
                    let bits = if raw >= min_map {
                        raw
                    } else {
                        min_map
                    };
                    let (palette, packed) = self.to_palette_and_packed_data(bits);
                    NetworkSerialization {
                        bits_per_entry: bits,
                        palette: NetworkPalette::Indirect(palette),
                        packed_data: packed,
                    }
                }
            },
        }
    }
}

proof fn lemma_count_distinct_bound<V>(counts: Seq<(V, u16)>, cells: Seq<V>)
    requires
        counts_match(counts, cells),
    ensures
        counts.len() <= cells.len(),
{
    let keys = keys_of(counts);
    keys.unique_seq_to_set();
    cells.lemma_cardinality_of_set();
    vstd::seq_lib::seq_to_set_is_finite(cells);
    assert forall|v: V| keys.to_set().contains(v) implies cells.to_set().contains(v) by {
        let j = choose|j: int| 0 <= j < keys.len() && keys[j] == v;
        assert(counts[j].0 == v);
        assert(counts[j].1 as nat == count_in(cells, counts[j].0) && counts[j].1 > 0);
        lemma_count_positive(cells, v);
        let k = choose|k: int| 0 <= k < cells.len() && cells[k] == v;
        assert(0 <= k < cells.len() && cells[k] == v);
        assert(cells.contains(v));
    }
    vstd::set_lib::lemma_len_subset(keys.to_set(), cells.to_set());
}

impl PalettedContainer<u16, 16> {
    /// The wire form of a block container: a palette up to 8 bits (at least
    /// 4), the ids at 15 bits beyond.
    pub fn convert_network(&self) -> (r: NetworkSerialization<u16>)
        requires
            self.wf(),
            self.natural_bits() > 8 ==> forall|i: int|
                0 <= i < self.cells().len() ==> (#[trigger] self.cells()[i] as nat) < pow2(15),
        ensures
            self.is_network_form(r, 4, 8, 15),
    {
        self.convert_network_with(
            BLOCK_NETWORK_MIN_MAP_BITS,
            BLOCK_NETWORK_MAX_MAP_BITS,
            BLOCK_NETWORK_MAX_BITS,
        )
    }

    /// The number of cells that are not air.
    pub fn non_air_block_count(&self) -> (r: u16)
        requires
            self.wf(),
        ensures
            r == non_air(self.cells()),
    {
        proof {
            lemma_counts_match_cells(*self);
            lemma_volume(16);
        }
        match self {
            PalettedContainer::Homogeneous(value) => {
                proof {
                    lemma_count_constant(4096, *value, 0u16);
                }
                if *value != 0 {
                    4096
                } else {
                    0
                }
            },
            PalettedContainer::Heterogeneous(data) => {
                match find_key(&data.counts, 0u16) {
                    Some(j) => {
                        proof {
                            assert(data.counts@[j as int].1 as nat == count_in(data.cube@, 0u16));
                            lemma_count_bounded(data.cube@, 0u16);
                        }
                        4096 - data.counts[j].1
                    },
                    None => {
                        proof {
                            lemma_absent_not_counted(data.counts@, data.cube@, 0u16);
                        }
                        4096
                    },
                }
            },
        }
    }

    /// The disk form: the palette and the places packed at no fewer than 4
    /// bits; no data for a single value.
    pub fn to_disk_nbt(&self) -> (r: ChunkSectionBlockStates)
        requires
            self.wf(),
        ensures
            self.is_packed_form(
                max_nat(self.natural_bits(), 4),
                r.palette@,
                match r.data {
                    Some(d) => d@,
                    None => Seq::empty(),
                },
            ),
            r.data matches Some(d) ==> d@.len() > 0,
            1 <= r.palette@.len() <= 4096,
    {
        let natural = self.bits_per_entry();
        let bits = if natural >= BLOCK_DISK_MIN_BITS {
            natural
        } else {
            BLOCK_DISK_MIN_BITS
        };
        let (palette, packed_data) = self.to_palette_and_packed_data(bits);
        let data = if packed_data.len() == 0 {
            None
        } else {
            Some(packed_data)
        };
        proof {
            if data is None {
                assert(packed_data@ =~= Seq::<i64>::empty());
            }
        }
        ChunkSectionBlockStates { data, palette }
    }

    /// The container that a disk form stands for, read at no fewer than 4
    /// bits; missing data reads as no words.
    pub fn from_disk_nbt(nbt: ChunkSectionBlockStates) -> (r: Self)
        requires
            nbt.palette@.len() <= 0x8000_0000_0000_0000,
        ensures
            r.wf(),
            r.cells() == decoded(
                nbt.palette@,
                match nbt.data {
                    Some(d) => d@,
                    None => Seq::empty(),
                },
                4,
                4096,
            ),
    {
        proof {
            lemma_volume(16);
        }
        let data = match nbt.data {
            Some(d) => d,
            None => Vec::new(),
        };
        Self::from_palette_and_packed_data(nbt.palette.as_slice(), data.as_slice(), BLOCK_DISK_MIN_BITS)
    }
}

impl PalettedContainer<u8, 4> {
    /// The wire form of a biome container: a palette up to 3 bits (at least
    /// 1), the ids at 7 bits beyond.
    pub fn convert_network(&self) -> (r: NetworkSerialization<u8>)
        requires
            self.wf(),
            self.natural_bits() > 3 ==> forall|i: int|
                0 <= i < self.cells().len() ==> (#[trigger] self.cells()[i] as nat) < pow2(7),
        ensures
            self.is_network_form(r, 1, 3, 7),
    {
        self.convert_network_with(
            BIOME_NETWORK_MIN_MAP_BITS,
            BIOME_NETWORK_MAX_MAP_BITS,
            BIOME_NETWORK_MAX_BITS,
        )
    }

    /// The disk form: the palette and the places packed at the natural
    /// width; no data for a single value.
    pub fn to_disk_nbt(&self) -> (r: ChunkSectionBiomes)
        requires
            self.wf(),
        ensures
            self.is_packed_form(
                self.natural_bits(),
                r.palette@,
                match r.data {
                    Some(d) => d@,
                    None => Seq::empty(),
                },
            ),
            r.data matches Some(d) ==> d@.len() > 0,
            1 <= r.palette@.len() <= 64,
    {
        let bits = self.bits_per_entry();
        let (palette, packed_data) = self.to_palette_and_packed_data(bits);
        let data = if packed_data.len() == 0 {
            None
        } else {
            Some(packed_data)
        };
        proof {
            if data is None {
                assert(packed_data@ =~= Seq::<i64>::empty());
            }
        }
        ChunkSectionBiomes { data, palette }
    }

    /// The container that a disk form stands for, read at the palette's
    /// natural width; missing data reads as no words.
    pub fn from_disk_nbt(nbt: ChunkSectionBiomes) -> (r: Self)
        requires
            nbt.palette@.len() <= 0x8000_0000_0000_0000,
        ensures
            r.wf(),
            r.cells() == decoded(
                nbt.palette@,
                match nbt.data {
                    Some(d) => d@,
                    None => Seq::empty(),
                },
                0,
                64,
            ),
    {
        proof {
            lemma_volume(4);
        }
        let data = match nbt.data {
            Some(d) => d,
            None => Vec::new(),
        };
        Self::from_palette_and_packed_data(nbt.palette.as_slice(), data.as_slice(), BIOME_DISK_MIN_BITS)
    }
}

/// The palette of a wire form lists at most as many values as the cube has cells.
pub proof fn lemma_network_palette_small<V: RegistryValue, const DIM: usize>(
    c: PalettedContainer<V, DIM>,
    r: NetworkSerialization<V>,
    min_map: nat,
    max_map: nat,
    direct: nat,
)
    requires
        c.wf(),
        c.is_network_form(r, min_map, max_map, direct),
    ensures
        r.palette matches NetworkPalette::Indirect(p) ==> p@.len() <= 4096,
{
    lemma_counts_match_cells(c);
    lemma_volume(DIM as nat);
    lemma_count_distinct_bound(c.counted(), c.cells());
}

impl<V: RegistryValue, const DIM: usize> Default for PalettedContainer<V, DIM> {
    /// A container whose every cell holds the default value.
    fn default() -> (r: Self)
        ensures
            r == PalettedContainer::<V, DIM>::Homogeneous(V::spec_default()),
            dim_ok(DIM as nat) ==> r.wf(),
    {
        PalettedContainer::Homogeneous(V::default_value())
    }
}

} // verus!
