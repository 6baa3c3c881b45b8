//! Lines of the grid as pairs of bit masks, one mask for each colour, and what
//! the masks say about the line they stand for.
use vstd::prelude::*;
use vstd::std_specs::bits::{axiom_u32_trailing_zeros, u32_trailing_zeros};
use crate::board::Cell;
use crate::rules::{count, lemma_count_step, run_at};

verus! {

/// The width of a mask: the longest line that one can stand for.
pub const WIDTH: usize = 32;

/// A line as two bit masks: bit `i` of `reds` is set where cell `i` of the
/// line is red, bit `i` of `blues` where it is blue.
#[derive(Debug, Clone, Copy, PartialEq, Eq, Structural)]
pub struct BitsRepr {
    pub reds: u32,
    pub blues: u32,
}

impl Default for BitsRepr {
    /// The masks of a line with nothing placed.
    fn default() -> (bits: Self)
        ensures
            bits.reds == 0,
            bits.blues == 0,
    {
        BitsRepr { reds: 0, blues: 0 }
    }
}

/// Bit `i` of `word` is set. No bit is set beyond the word's width.
pub open spec fn bit(word: u32, i: int) -> bool {
    0 <= i < 32 && word & (1u32 << (i as u32)) != 0
}

/// The bits of `word`, lowest first.
pub open spec fn bits_of(word: u32) -> Seq<bool> {
    Seq::new(32, |i: int| bit(word, i))
}

/// How many of the lowest `upto` bits of `word` are set.
pub open spec fn ones(word: u32, upto: int) -> nat
    decreases upto,
{
    if upto <= 0 {
        0
    } else {
        ones(word, upto - 1) + if bit(word, upto - 1) {
            1nat
        } else {
            0nat
        }
    }
}

/// `word` with bit `k` set if `on`, cleared if not.
pub open spec fn with_bit(word: u32, k: int, on: bool) -> u32 {
    if on {
        word | (1u32 << (k as u32))
    } else {
        word & !(1u32 << (k as u32))
    }
}

/// The masks `bits` with position `k` showing `v`.
pub open spec fn mark(bits: BitsRepr, k: int, v: Cell) -> BitsRepr {
    BitsRepr {
        reds: with_bit(bits.reds, k, v == Cell::Red),
        blues: with_bit(bits.blues, k, v == Cell::Blue),
    }
}

/// The masks show the first `upto` cells of the line and nothing else.
pub open spec fn mirrors(bits: BitsRepr, line: Seq<Cell>, upto: int) -> bool {
    &&& forall|i: int|
        0 <= i < 32 ==> (#[trigger] bit(bits.reds, i) <==> i < upto && line[i] == Cell::Red)
    &&& forall|i: int|
        0 <= i < 32 ==> (#[trigger] bit(bits.blues, i) <==> i < upto && line[i] == Cell::Blue)
}

/// The masks stand for the line: they show each of its cells and nothing else.
pub open spec fn encodes(bits: BitsRepr, line: Seq<Cell>) -> bool {
    line.len() <= 32 && mirrors(bits, line, line.len() as int)
}

/// Three set bits stand at `s`, `s + 1` and `s + 2` of `word`.
pub open spec fn triple_at(word: u32, s: int) -> bool {
    bit(word, s) && bit(word, s + 1) && bit(word, s + 2)
}

/// `u32::count_ones`: the number of set bits among the 32 bits of the word.
pub assume_specification[ u32::count_ones ](word: u32) -> (n: u32)
    ensures
        n == ones(word, 32),
;

impl BitsRepr {
    /// The masks with position `pos` showing `cell`: the bit of the cell's
    /// colour set there, and the bit of any other colour cleared.
    pub fn marked(self, pos: usize, cell: Cell) -> (out: Self)
        requires
            pos < 32,
        ensures
            out == mark(self, pos as int, cell),
    {
        let mask: u32 = 1u32 << (pos as u32);
        BitsRepr {
            reds: if cell == Cell::Red {
                self.reds | mask
            } else {
                self.reds & !mask
            },
            blues: if cell == Cell::Blue {
                self.blues | mask
            } else {
                self.blues & !mask
            },
        }
    }
}

/// The bits of a word, handed out one by one from the lowest.
pub struct BitsIter {
    iteration: usize,
    value: u32,
}

impl View for BitsIter {
    type V = Seq<bool>;

    /// The bits still to come.
    closed spec fn view(&self) -> Seq<bool> {
        if self.iteration < 32 {
            bits_of(self.value).skip(self.iteration as int)
        } else {
            Seq::empty()
        }
    }
}

impl BitsIter {
    /// The next bit, if one is left.
    pub fn next(&mut self) -> (item: Option<bool>)
        ensures
            old(self)@.len() == 0 ==> item is None && final(self)@ == old(self)@,
            old(self)@.len() > 0 ==> item == Some(old(self)@[0]),
            old(self)@.len() > 0 ==> final(self)@ == old(self)@.drop_first(),
    {
        if self.iteration >= WIDTH {
            None
        } else {
            let result = self.value & (1u32 << (self.iteration as u32));
            self.iteration += 1;
            proof {
                let before = bits_of(self.value).skip(self.iteration - 1);
                if self.iteration < 32 {
                    assert(before.drop_first() =~= bits_of(self.value).skip(self.iteration as int));
                } else {
                    assert(before.drop_first() =~= Seq::<bool>::empty());
                }
            }
            Some(result > 0)
        }
    }
}

/// The 32 bits of `value`, lowest first.
pub fn bits_iter(value: u32) -> (iter: BitsIter)
    ensures
        iter@ == bits_of(value),
{
    let iter = BitsIter { value, iteration: 0 };
    assert(bits_of(value).skip(0) =~= bits_of(value));
    iter
}

/// What setting or clearing bit `k` does to each bit of a word.
pub proof fn lemma_with_bit(word: u32, k: int, on: bool)
    requires
        0 <= k < 32,
    ensures
        forall|i: int|
            0 <= i < 32 ==> (#[trigger] bit(with_bit(word, k, on), i) <==> if i == k {
                on
            } else {
                bit(word, i)
            }),
{
    let x = word;
    let ku = k as u32;
    assert(forall|i: u32|
        i < 32 && ku < 32 ==> (((x | (1u32 << ku)) & (1u32 << i) != 0) <==> ((x & (1u32 << i)) != 0
            || i == ku))) by (bit_vector);
    assert(forall|i: u32|
        i < 32 && ku < 32 ==> (((x & !(1u32 << ku)) & (1u32 << i) != 0) <==> ((x & (1u32 << i))
            != 0 && i != ku))) by (bit_vector);
    assert forall|i: int| 0 <= i < 32 implies (#[trigger] bit(with_bit(word, k, on), i) <==> if i
        == k {
        on
    } else {
        bit(word, i)
    }) by {
        let iu = i as u32;
        assert(iu < 32);
    }
}

/// No bit of zero is set.
pub proof fn lemma_zero_bits()
    ensures
        forall|i: int| !#[trigger] bit(0u32, i),
{
    assert(forall|i: u32| i < 32 ==> 0u32 & (1u32 << i) == 0) by (bit_vector);
    assert forall|i: int| !#[trigger] bit(0u32, i) by {
        let iu = i as u32;
        if 0 <= i < 32 {
            assert(iu < 32);
        }
    }
}

/// Two words with the same bits are the same word.
pub proof fn lemma_same_bits(a: u32, b: u32)
    requires
        forall|i: int| 0 <= i < 32 ==> (bit(a, i) <==> bit(b, i)),
    ensures
        a == b,
{
    if a != b {
        let d = a ^ b;
        assert(a != b ==> a ^ b != 0) by (bit_vector);
        axiom_u32_trailing_zeros(d);
        let t = u32_trailing_zeros(d);
        assert(t < 32);
        assert(t < 32 && ((a ^ b) >> t) & 1u32 == 1u32 ==> ((a & (1u32 << t) != 0) != (b & (1u32
            << t) != 0))) by (bit_vector);
        assert(bit(a, t as int) != bit(b, t as int));
    }
}

/// A mask that shows where a line holds a colour has as many set bits as the
/// line has cells of that colour.
proof fn lemma_ones_count(word: u32, line: Seq<Cell>, colour: Cell, upto: int)
    requires
        line.len() <= 32,
        0 <= upto <= 32,
        forall|i: int|
            0 <= i < 32 ==> (#[trigger] bit(word, i) <==> i < line.len() && line[i] == colour),
    ensures
        ones(word, upto) == count(
            line.take(
                if upto <= line.len() {
                    upto
                } else {
                    line.len() as int
                },
            ),
            colour,
        ),
    decreases upto,
{
    if upto > 0 {
        lemma_ones_count(word, line, colour, upto - 1);
        if upto <= line.len() {
            lemma_count_step(line, upto - 1, colour);
        } else {
            assert(!bit(word, upto - 1));
        }
    } else {
        assert(line.take(0) =~= Seq::<Cell>::empty());
    }
}

/// The set bits of the masks of a line count its red and its blue cells.
pub proof fn lemma_encodes_counts(bits: BitsRepr, line: Seq<Cell>)
    requires
        encodes(bits, line),
    ensures
        ones(bits.reds, 32) == count(line, Cell::Red),
        ones(bits.blues, 32) == count(line, Cell::Blue),
{
    lemma_ones_count(bits.reds, line, Cell::Red, 32);
    lemma_ones_count(bits.blues, line, Cell::Blue, 32);
    assert(line.take(line.len() as int) =~= line);
}

/// Lines of one length have the same masks exactly when they are the same
/// line.
pub proof fn lemma_encodes_same(a: BitsRepr, b: BitsRepr, la: Seq<Cell>, lb: Seq<Cell>)
    requires
        encodes(a, la),
        encodes(b, lb),
        la.len() == lb.len(),
    ensures
        a == b <==> la == lb,
{
    if a == b {
        assert forall|i: int| 0 <= i < la.len() implies la[i] == lb[i] by {
            assert(bit(a.reds, i) <==> la[i] == Cell::Red);
            assert(bit(b.reds, i) <==> lb[i] == Cell::Red);
            assert(bit(a.blues, i) <==> la[i] == Cell::Blue);
            assert(bit(b.blues, i) <==> lb[i] == Cell::Blue);
        }
        assert(la =~= lb);
    }
    if la == lb {
        lemma_same_bits(a.reds, b.reds);
        lemma_same_bits(a.blues, b.blues);
    }
}

/// A run of three in a line is three set bits in a row in one of its masks.
pub proof fn lemma_encodes_run(bits: BitsRepr, line: Seq<Cell>, s: int)
    requires
        encodes(bits, line),
    ensures
        run_at(line, s) <==> triple_at(bits.reds, s) || triple_at(bits.blues, s),
{
    if 0 <= s && s + 2 < 32 {
        assert(bit(bits.reds, s) <==> s < line.len() && line[s] == Cell::Red);
        assert(bit(bits.reds, s + 1) <==> s + 1 < line.len() && line[s + 1] == Cell::Red);
        assert(bit(bits.reds, s + 2) <==> s + 2 < line.len() && line[s + 2] == Cell::Red);
        assert(bit(bits.blues, s) <==> s < line.len() && line[s] == Cell::Blue);
        assert(bit(bits.blues, s + 1) <==> s + 1 < line.len() && line[s + 1] == Cell::Blue);
        assert(bit(bits.blues, s + 2) <==> s + 2 < line.len() && line[s + 2] == Cell::Blue);
    }
}

/// Marking position `k` of the masks of a line with `v` gives the masks of the
/// line with `v` written at `k`.
pub proof fn lemma_encodes_mark(bits: BitsRepr, line: Seq<Cell>, k: int, v: Cell)
    requires
        encodes(bits, line),
        0 <= k < line.len(),
    ensures
        encodes(mark(bits, k, v), line.update(k, v)),
{
    lemma_with_bit(bits.reds, k, v == Cell::Red);
    lemma_with_bit(bits.blues, k, v == Cell::Blue);
}

/// Marking position `upto` of masks that show the cells before it with the
/// cell that the line holds there gives masks that show one cell more.
pub proof fn lemma_mirrors_mark(bits: BitsRepr, line: Seq<Cell>, upto: int)
    requires
        mirrors(bits, line, upto),
        0 <= upto < line.len(),
        upto < 32,
    ensures
        mirrors(mark(bits, upto, line[upto]), line, upto + 1),
{
    lemma_with_bit(bits.reds, upto, line[upto] == Cell::Red);
    lemma_with_bit(bits.blues, upto, line[upto] == Cell::Blue);
}

} // verus!
