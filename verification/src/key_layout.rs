//! Keyboard layouts: characters indexed by physical key position.
//!
//! A layout is an ordered collection of rows, each an ordered collection of
//! key columns, each an ordered collection of characters indexed by shift
//! level.  The derived character index maps each character to the position of
//! its last occurrence in row-major, column-major, shift-level scan order.

use vstd::prelude::*;

use crate::math::sqrt_floor;
use crate::math::lemma_sqrt_floor_upper;
use crate::math::isqrt;

verus! {

/// A key position: row, column and shift level.
pub type KeyIndex = (usize, usize, usize);

/// The `(character, position)` pairs of one key column, in shift-level order.
pub open spec fn col_pairs(col: Seq<char>, i: usize, j: usize) -> Seq<(char, KeyIndex)>
    decreases col.len(),
{
    if col.len() == 0 {
        Seq::empty()
    } else {
        col_pairs(col.drop_last(), i, j).push((col.last(), (i, j, (col.len() - 1) as usize)))
    }
}

/// The pairs of one row, column by column.
pub open spec fn row_pairs(row: Seq<Seq<char>>, i: usize) -> Seq<(char, KeyIndex)>
    decreases row.len(),
{
    if row.len() == 0 {
        Seq::empty()
    } else {
        row_pairs(row.drop_last(), i) + col_pairs(row.last(), i, (row.len() - 1) as usize)
    }
}

/// The pairs of a whole layout table, row by row.
pub open spec fn matrix_pairs(m: Seq<Seq<Seq<char>>>) -> Seq<(char, KeyIndex)>
    decreases m.len(),
{
    if m.len() == 0 {
        Seq::empty()
    } else {
        matrix_pairs(m.drop_last()) + row_pairs(m.last(), (m.len() - 1) as usize)
    }
}

/// The character index built from a pair list: a later pair with the same
/// character overwrites an earlier one, so a duplicated character resolves to
/// its last-scanned occurrence.
pub open spec fn index_map(pairs: Seq<(char, KeyIndex)>) -> Map<char, KeyIndex>
    decreases pairs.len(),
{
    if pairs.len() == 0 {
        Map::empty()
    } else {
        index_map(pairs.drop_last()).insert(pairs.last().0, pairs.last().1)
    }
}

/// If `pairs[n]` holds `c` and no later pair does, the index maps `c` to the
/// position stored at `n`.
pub proof fn lemma_index_map_last_match(pairs: Seq<(char, KeyIndex)>, c: char, n: int)
    requires
        0 <= n < pairs.len(),
        pairs[n].0 == c,
        forall|m: int| n < m < pairs.len() ==> pairs[m].0 != c,
    ensures
        index_map(pairs).contains_key(c),
        index_map(pairs)[c] == pairs[n].1,
    decreases pairs.len(),
{
    if n == pairs.len() - 1 {
    } else {
        lemma_index_map_last_match(pairs.drop_last(), c, n);
    }
}

/// A character in no pair is absent from the index.
pub proof fn lemma_index_map_no_match(pairs: Seq<(char, KeyIndex)>, c: char)
    requires
        forall|m: int| 0 <= m < pairs.len() ==> pairs[m].0 != c,
    ensures
        !index_map(pairs).contains_key(c),
    decreases pairs.len(),
{
    if pairs.len() > 0 {
        lemma_index_map_no_match(pairs.drop_last(), c);
    }
}

/// The domain of the index is exactly the set of characters that occur.
pub proof fn lemma_index_map_dom(pairs: Seq<(char, KeyIndex)>, c: char)
    ensures
        index_map(pairs).contains_key(c) <==> exists|m: int|
            0 <= m < pairs.len() && pairs[m].0 == c,
    decreases pairs.len(),
{
    if pairs.len() > 0 {
        lemma_index_map_dom(pairs.drop_last(), c);
        if pairs.last().0 == c {
            assert(pairs[pairs.len() - 1].0 == c);
        } else if index_map(pairs).contains_key(c) {
            let m = choose|m: int| 0 <= m < pairs.drop_last().len() && pairs.drop_last()[m].0 == c;
            assert(pairs[m].0 == c);
        } else {
            assert(forall|m: int|
                0 <= m < pairs.drop_last().len() ==> pairs.drop_last()[m].0 == pairs[m].0);
        }
    }
}

/// An immutable keyboard layout with its derived character index.
pub struct KeyLayout {
    matrix: Vec<Vec<Vec<char>>>,
    char_indices: Vec<(char, KeyIndex)>,
}

impl KeyLayout {
    /// The character index of this layout, as a map.
    pub closed spec fn key_map(&self) -> Map<char, KeyIndex> {
        index_map(self.char_indices@)
    }

    /// Builds a layout from its literal table and derives the character index.
    pub fn new(matrix: Vec<Vec<Vec<char>>>) -> (r: KeyLayout)
        ensures
            r.key_map() == index_map(matrix_pairs(matrix.deep_view())),
    {
        let char_indices = KeyLayout::chars_indexed(&matrix);
        KeyLayout { matrix, char_indices }
    }

    /// Enumerates every `(character, position)` pair of a table in row-major,
    /// column-major, shift-level order.
    pub fn chars_indexed(matrix: &Vec<Vec<Vec<char>>>) -> (r: Vec<(char, KeyIndex)>)
        ensures
            r@ == matrix_pairs(matrix.deep_view()),
    {
        let ghost md = matrix.deep_view();
        let mut result: Vec<(char, KeyIndex)> = Vec::new();
        let mut i: usize = 0;
        proof {
            assert(md.take(0int) =~= Seq::<Seq<Seq<char>>>::empty());
        }
        while i < matrix.len()
            invariant
                i <= matrix@.len(),
                md == matrix.deep_view(),
                md.len() == matrix@.len(),
                result@ == matrix_pairs(md.take(i as int)),
            decreases matrix@.len() - i,
        {
            let row = &matrix[i];
            let ghost rd = md[i as int];
            let mut j: usize = 0;
            proof {
                assert(rd == matrix@[i as int].deep_view());
                assert(rd.len() == row@.len());
                assert(rd.take(0int) =~= Seq::<Seq<char>>::empty());
            }
            while j < row.len()
                invariant
                    i < matrix@.len(),
                    j <= row@.len(),
                    md == matrix.deep_view(),
                    row == &matrix@[i as int],
                    rd == md[i as int],
                    rd == matrix@[i as int].deep_view(),
                    rd.len() == row@.len(),
                    result@ == matrix_pairs(md.take(i as int)) + row_pairs(
                        rd.take(j as int),
                        i,
                    ),
                decreases row@.len() - j,
            {
                let col = &row[j];
                let mut k: usize = 0;
                proof {
                    assert(rd[j as int] == row@[j as int].deep_view());
                    assert(rd[j as int] =~= col@);
                    assert(col@.take(0int) =~= Seq::<char>::empty());
                }
                while k < col.len()
                    invariant
                        i < matrix@.len(),
                        j < row@.len(),
                        k <= col@.len(),
                        md == matrix.deep_view(),
                        row == &matrix@[i as int],
                        col == &row@[j as int],
                        rd == md[i as int],
                        rd.len() == row@.len(),
                        rd[j as int] == col@,
                        result@ == matrix_pairs(md.take(i as int)) + row_pairs(
                            rd.take(j as int),
                            i,
                        ) + col_pairs(col@.take(k as int), i, j),
                    decreases col@.len() - k,
                {
                    let c = col[k];
                    result.push((c, (i, j, k)));
                    proof {
                        assert(col@.take(k + 1int).drop_last() =~= col@.take(k as int));
                        assert(col@.take(k + 1int).last() == col@[k as int]);
                    }
                    k = k + 1;
                }
                proof {
                    assert(col@.take(col@.len() as int) =~= col@);
                    assert(rd.take(j + 1int).drop_last() =~= rd.take(j as int));
                    assert(rd.take(j + 1int).last() == rd[j as int]);
                }
                j = j + 1;
            }
            proof {
                assert(rd.take(rd.len() as int) =~= rd);
                assert(md.take(i + 1int).drop_last() =~= md.take(i as int));
                assert(md.take(i + 1int).last() == md[i as int]);
            }
            i = i + 1;
        }
        proof {
            assert(md.take(md.len() as int) =~= md);
        }
        result
    }

    /// Looks a character up in the index; `None` for a character the layout
    /// does not hold.
    pub fn get_pos(&self, c: char) -> (r: Option<KeyIndex>)
        ensures
            self.key_map().contains_key(c) ==> r == Some(self.key_map()[c]),
            !self.key_map().contains_key(c) ==> r is None,
    {
        let n = self.char_indices.len();
        let mut k = n;
        while k > 0
            invariant
                k <= n == self.char_indices@.len(),
                forall|m: int| k <= m < self.char_indices@.len() ==> self.char_indices@[m].0 != c,
            decreases k,
        {
            k = k - 1;
            let pair = self.char_indices[k];
            if pair.0 == c {
                proof {
                    lemma_index_map_last_match(self.char_indices@, c, k as int);
                }
                return Some(pair.1);
            }
        }
        proof {
            lemma_index_map_no_match(self.char_indices@, c);
        }
        None
    }

    /// The characters the layout knows a position for, each once.
    pub fn chars(&self) -> (r: Vec<char>)
        ensures
            r@.no_duplicates(),
            forall|c: char| #[trigger] r@.contains(c) <==> self.key_map().contains_key(c),
    {
        let mut result: Vec<char> = Vec::new();
        let n = self.char_indices.len();
        let mut m: usize = 0;
        while m < n
            invariant
                m <= n == self.char_indices@.len(),
                result@.no_duplicates(),
                forall|c: char| #[trigger] result@.contains(c) <==> exists|p: int|
                    0 <= p < m && self.char_indices@[p].0 == c,
            decreases n - m,
        {
            let c = self.char_indices[m].0;
            let ghost old_r = result@;
            if !contains_char(&result, c) {
                result.push(c);
                proof {
                    assert forall|x: char| #[trigger] result@.contains(x) implies (old_r.contains(x)
                        || x == c) by {
                        let idx = choose|idx: int|
                            0 <= idx < result@.len() && result@[idx] == x;
                        if idx < old_r.len() {
                            assert(old_r[idx] == x);
                        }
                    }
                    assert forall|x: char| old_r.contains(x) || x == c implies #[trigger] result@
                        .contains(x) by {
                        if old_r.contains(x) {
                            let idx = choose|idx: int|
                                0 <= idx < old_r.len() && old_r[idx] == x;
                            assert(result@[idx] == x);
                        } else {
                            assert(result@[result@.len() - 1] == x);
                        }
                    }
                }
            }
            proof {
                assert(self.char_indices@[m as int].0 == c);
            }
            m = m + 1;
        }
        proof {
            assert forall|c: char| #[trigger] result@.contains(c) implies self.key_map().contains_key(
                c,
            ) by {
                lemma_index_map_dom(self.char_indices@, c);
            }
            assert forall|c: char| self.key_map().contains_key(c) implies result@.contains(c) by {
                lemma_index_map_dom(self.char_indices@, c);
            }
        }
        result
    }

    /// The plain geometric distance between two keys, in thousandths: the
    /// euclidean distance over row, column and shift deltas.  `None` when
    /// either character is not in the layout.  Deltas are capped at a million
    /// key units, far past any physical keyboard, to keep the arithmetic in
    /// 64 bits.
    pub fn dist(&self, a: char, b: char) -> (r: Option<u64>)
        ensures
            self.key_map().contains_key(a) && self.key_map().contains_key(b) ==> r == Some(
                spec_key_dist(self.key_map()[a], self.key_map()[b]),
            ),
            !(self.key_map().contains_key(a) && self.key_map().contains_key(b)) ==> r is None,
    {
        let pa = self.get_pos(a);
        let pb = self.get_pos(b);
        match (pa, pb) {
            (Some(pa), Some(pb)) => {
                let dr = capped_delta(pa.0, pb.0);
                let dc = capped_delta(pa.1, pb.1);
                let ds = capped_delta(pa.2, pb.2);
                Some(scaled_root_3(dr, dc, ds, 1000000))
            },
            _ => None,
        }
    }
}

/// The scaled key distance of `KeyLayout::dist`, as a mathematical value.
pub open spec fn spec_key_dist(pa: KeyIndex, pb: KeyIndex) -> u64 {
    let dr = spec_capped_delta(pa.0 as int, pb.0 as int);
    let dc = spec_capped_delta(pa.1 as int, pb.1 as int);
    let ds = spec_capped_delta(pa.2 as int, pb.2 as int);
    sqrt_floor(((dr * dr + dc * dc + ds * ds) * 1000000) as nat) as u64
}

/// The absolute difference, capped at a million key units.
pub open spec fn spec_capped_delta(x: int, y: int) -> int {
    let d = if x >= y {
        x - y
    } else {
        y - x
    };
    if d > 1000000 {
        1000000
    } else {
        d
    }
}

/// Absolute difference of two coordinates, capped at a million key units.
pub fn capped_delta(x: usize, y: usize) -> (r: u64)
    ensures
        r == spec_capped_delta(x as int, y as int),
        r <= 1000000,
{
    let d = if x >= y {
        x - y
    } else {
        y - x
    };
    if d > 1000000 {
        1000000
    } else {
        d as u64
    }
}

/// `sqrt_floor((a * a + b * b + c * c) * scale)` on 64 bits, for capped deltas.
pub fn scaled_root_3(a: u64, b: u64, c: u64, scale: u64) -> (r: u64)
    requires
        a <= 3000000,
        b <= 3000000,
        c <= 3000000,
        scale <= 1000000,
        scale <= 100000 || (a <= 1000000 && b <= 1000000 && c <= 1000000),
    ensures
        r == sqrt_floor((((a * a + b * b + c * c) as int) * (scale as int)) as nat),
{
    proof {
        assert((a as int) * (a as int) <= 9000000000000 && (b as int) * (b as int)
            <= 9000000000000 && (c as int) * (c as int) <= 9000000000000) by (nonlinear_arith)
            requires
                a <= 3000000,
                b <= 3000000,
                c <= 3000000,
        ;
    }
    let q = a * a + b * b + c * c;
    proof {
        assert((q as int) * (scale as int) <= 3000000000000000000) by (nonlinear_arith)
            requires
                q as int == (a as int) * (a as int) + (b as int) * (b as int) + (c as int) * (
                c as int),
                a <= 3000000,
                b <= 3000000,
                c <= 3000000,
                scale <= 1000000,
                scale <= 100000 || (a <= 1000000 && b <= 1000000 && c <= 1000000),
        ;
    }
    isqrt(q * scale)
}

/// Linear membership scan used while deduplicating the alphabet.
pub fn contains_char(v: &Vec<char>, c: char) -> (r: bool)
    ensures
        r == v@.contains(c),
{
    let mut m: usize = 0;
    while m < v.len()
        invariant
            m <= v@.len(),
            forall|p: int| 0 <= p < m ==> v@[p] != c,
        decreases v@.len() - m,
    {
        if v[m] == c {
            return true;
        }
        m = m + 1;
    }
    false
}

} // verus!
