use vstd::prelude::*;
use vstd::string::StringExecFns;

use crate::nbt::{
    NbtCompound, NbtTag, NbtValue, children_value, lemma_children_value, lemma_list_value,
    list_value, tag_value,
};

verus! {

/// A piece of SNBT text: text as it stands, or the bits of a float or a
/// double that a caller prints in its own number format.
#[derive(Debug)]
pub enum SnbtPiece {
    Text(String),
    Float(u32),
    Double(u64),
}

/// What a piece stands for.
pub enum PieceView {
    Text(Seq<char>),
    Float(u32),
    Double(u64),
}

pub open spec fn piece_view(p: SnbtPiece) -> PieceView {
    match p {
        SnbtPiece::Text(s) => PieceView::Text(s@),
        SnbtPiece::Float(b) => PieceView::Float(b),
        SnbtPiece::Double(b) => PieceView::Double(b),
    }
}

pub open spec fn pieces_view(ps: Seq<SnbtPiece>) -> Seq<PieceView> {
    ps.map_values(|p: SnbtPiece| piece_view(p))
}

pub open spec fn digit_char(d: nat) -> char {
    if d == 0 {
        '0'
    } else if d == 1 {
        '1'
    } else if d == 2 {
        '2'
    } else if d == 3 {
        '3'
    } else if d == 4 {
        '4'
    } else if d == 5 {
        '5'
    } else if d == 6 {
        '6'
    } else if d == 7 {
        '7'
    } else if d == 8 {
        '8'
    } else {
        '9'
    }
}

/// The decimal digits of `n`, most significant first.
pub open spec fn digits(n: nat) -> Seq<char>
    decreases n,
{
    if n < 10 {
        seq![digit_char(n)]
    } else {
        digits(n / 10).push(digit_char(n % 10))
    }
}

/// A number in decimal, with a leading `-` when negative.
pub open spec fn decimal(v: int) -> Seq<char> {
    if v < 0 {
        seq!['-'] + digits((-v) as nat)
    } else {
        digits(v as nat)
    }
}

/// Numbers in decimal, separated by `, `.
pub open spec fn joined(ns: Seq<int>) -> Seq<char>
    decreases ns.len(),
{
    if ns.len() == 0 {
        Seq::empty()
    } else if ns.len() == 1 {
        decimal(ns[0])
    } else {
        joined(ns.drop_last()) + seq![',', ' '] + decimal(ns.last())
    }
}

/// A typed array: `[B; `, `[I; ` or `[L; ` (by `kind`), the numbers, `]`.
pub open spec fn array_text(kind: char, ns: Seq<int>) -> Seq<char> {
    seq!['[', kind, ';', ' '] + joined(ns) + seq![']']
}

/// The SNBT of a value: numbers in decimal, strings in double quotes, typed
/// arrays, lists as `[a, b]`, compounds as `{k1: v1, k2: v2}`; floats and
/// doubles stay as their bits.
pub open spec fn snbt_pieces(v: NbtValue) -> Seq<PieceView>
    decreases v,
{
    match v {
        NbtValue::End => Seq::empty(),
        NbtValue::Byte(x) => seq![PieceView::Text(decimal(x as int))],
        NbtValue::Short(x) => seq![PieceView::Text(decimal(x as int))],
        NbtValue::Int(x) => seq![PieceView::Text(decimal(x as int))],
        NbtValue::Long(x) => seq![PieceView::Text(decimal(x as int))],
        NbtValue::Float(b) => seq![PieceView::Float(b)],
        NbtValue::Double(b) => seq![PieceView::Double(b)],
        NbtValue::String(s) => seq![PieceView::Text(seq!['"'] + s + seq!['"'])],
        NbtValue::ByteArray(a) => seq![
            PieceView::Text(array_text('B', a.map_values(|x: u8| x as int))),
        ],
        NbtValue::IntArray(a) => seq![
            PieceView::Text(array_text('I', a.map_values(|x: i32| x as int))),
        ],
        NbtValue::LongArray(a) => seq![
            PieceView::Text(array_text('L', a.map_values(|x: i64| x as int))),
        ],
        NbtValue::List(items) => seq![PieceView::Text(seq!['['])] + list_pieces(items) + seq![
            PieceView::Text(seq![']']),
        ],
        NbtValue::Compound(cs) => seq![PieceView::Text(seq!['{'])] + children_pieces(cs) + seq![
            PieceView::Text(seq!['}']),
        ],
    }
}

/// List elements separated by `, `.
pub open spec fn list_pieces(items: Seq<NbtValue>) -> Seq<PieceView>
    decreases items,
{
    if items.len() == 0 {
        Seq::empty()
    } else if items.len() == 1 {
        snbt_pieces(items[0])
    } else {
        list_pieces(items.drop_last()) + seq![PieceView::Text(seq![',', ' '])] + snbt_pieces(
            items.last(),
        )
    }
}

/// Named values as `name: value`, separated by `, `.
pub open spec fn children_pieces(cs: Seq<(Seq<char>, NbtValue)>) -> Seq<PieceView>
    decreases cs,
{
    if cs.len() == 0 {
        Seq::empty()
    } else if cs.len() == 1 {
        seq![PieceView::Text(cs[0].0 + seq![':', ' '])] + snbt_pieces(cs[0].1)
    } else {
        children_pieces(cs.drop_last()) + seq![
            PieceView::Text(seq![',', ' '] + cs.last().0 + seq![':', ' ']),
        ] + snbt_pieces(cs.last().1)
    }
}

fn digit_str(d: u64) -> (r: &'static str)
    requires
        d < 10,
    ensures
        r@ == seq![digit_char(d as nat)],
{
    proof {
        reveal_strlit("0");
        reveal_strlit("1");
        reveal_strlit("2");
        reveal_strlit("3");
        reveal_strlit("4");
        reveal_strlit("5");
        reveal_strlit("6");
        reveal_strlit("7");
        reveal_strlit("8");
        reveal_strlit("9");
    }
    match d {
        0 => "0",
        1 => "1",
        2 => "2",
        3 => "3",
        4 => "4",
        5 => "5",
        6 => "6",
        7 => "7",
        8 => "8",
        _ => "9",
    }
}

fn lit_sep() -> (r: &'static str)
    ensures
        r@ == seq![',', ' '],
{
    proof {
        reveal_strlit(", ");
    }
    assert(", "@ =~= seq![',', ' ']);
    ", "
}

fn lit_colon() -> (r: &'static str)
    ensures
        r@ == seq![':', ' '],
{
    proof {
        reveal_strlit(": ");
    }
    assert(": "@ =~= seq![':', ' ']);
    ": "
}

fn lit_one(c: char) -> (r: &'static str)
    requires
        c == '"' || c == '[' || c == ']' || c == '{' || c == '}' || c == 'B' || c == 'I' || c
            == 'L',
    ensures
        r@ == seq![c],
{
    proof {
        reveal_strlit("\"");
        reveal_strlit("[");
        reveal_strlit("]");
        reveal_strlit("{");
        reveal_strlit("}");
        reveal_strlit("B");
        reveal_strlit("I");
        reveal_strlit("L");
    }
    if c == '"' {
        assert("\""@ =~= seq![c]);
        "\""
    } else if c == '[' {
        assert("["@ =~= seq![c]);
        "["
    } else if c == ']' {
        assert("]"@ =~= seq![c]);
        "]"
    } else if c == '{' {
        assert("{"@ =~= seq![c]);
        "{"
    } else if c == '}' {
        assert("}"@ =~= seq![c]);
        "}"
    } else if c == 'B' {
        assert("B"@ =~= seq![c]);
        "B"
    } else if c == 'I' {
        assert("I"@ =~= seq![c]);
        "I"
    } else {
        assert("L"@ =~= seq![c]);
        "L"
    }
}

fn push_digits(s: &mut String, n: u64)
    ensures
        final(s)@ == old(s)@ + digits(n as nat),
    decreases n,
{
    if n >= 10 {
        push_digits(s, n / 10);
    }
    s.append(digit_str(n % 10));
    assert(final(s)@ =~= old(s)@ + digits(n as nat));
}

fn push_decimal(s: &mut String, v: i64)
    ensures
        final(s)@ == old(s)@ + decimal(v as int),
{
    if v < 0 {
        proof {
            reveal_strlit("-");
        }
        assert("-"@ =~= seq!['-']);
        s.append("-");
        let m: u64 = (0i128 - (v as i128)) as u64;
        push_digits(s, m);
        assert(final(s)@ =~= old(s)@ + decimal(v as int));
    } else {
        push_digits(s, v as u64);
    }
}

fn decimal_text(v: i64) -> (r: String)
    ensures
        r@ == decimal(v as int),
{
    let mut s = String::new();
    push_decimal(&mut s, v);
    assert(s@ =~= decimal(v as int));
    s
}

proof fn lemma_joined_step(ns: Seq<int>, i: int)
    requires
        0 <= i < ns.len(),
    ensures
        joined(ns.subrange(0, i + 1)) == if i == 0 {
            decimal(ns[0])
        } else {
            joined(ns.subrange(0, i)) + seq![',', ' '] + decimal(ns[i])
        },
{
    assert(ns.subrange(0, i + 1).drop_last() =~= ns.subrange(0, i));
}

/// `[kind; n1, n2, ...]` for the numbers of `ns`, given as i64 values.
fn array_string(kind: char, ns: &Vec<i64>) -> (r: String)
    requires
        kind == 'B' || kind == 'I' || kind == 'L',
    ensures
        r@ == array_text(kind, ns@.map_values(|x: i64| x as int)),
{
    let ghost all = ns@.map_values(|x: i64| x as int);
    let mut s = String::from_str(lit_one('['));
    s.append(lit_one(kind));
    s.append(";");
    proof {
        reveal_strlit(";");
    }
    assert(";"@ =~= seq![';']);
    s.append(" ");
    proof {
        reveal_strlit(" ");
    }
    assert(" "@ =~= seq![' ']);
    let ghost head = s@;
    assert(head =~= seq!['[', kind, ';', ' ']);
    let mut i: usize = 0;
    while i < ns.len()
        invariant
            i <= ns@.len(),
            all == ns@.map_values(|x: i64| x as int),
            head == seq!['[', kind, ';', ' '],
            s@ == head + joined(all.subrange(0, i as int)),
        decreases ns@.len() - i,
    {
        proof {
            lemma_joined_step(all, i as int);
        }
        let ghost before = s@;
        if i > 0 {
            s.append(lit_sep());
        }
        push_decimal(&mut s, ns[i]);
        proof {
            assert(all[i as int] == ns@[i as int] as int);
            if i > 0 {
                assert(s@ =~= head + (joined(all.subrange(0, i as int)) + seq![',', ' ']
                    + decimal(all[i as int])));
            } else {
                assert(s@ =~= head + decimal(all[0]));
            }
        }
        i = i + 1;
    }
    assert(all.subrange(0, ns@.len() as int) =~= all);
    s.append(lit_one(']'));
    assert(s@ =~= array_text(kind, all));
    s
}

fn push_piece(out: &mut Vec<SnbtPiece>, p: SnbtPiece)
    ensures
        pieces_view(final(out)@) == pieces_view(old(out)@).push(piece_view(p)),
{
    out.push(p);
    assert(pieces_view(final(out)@) =~= pieces_view(old(out)@).push(piece_view(p)));
}

fn push_text(out: &mut Vec<SnbtPiece>, t: &str)
    ensures
        pieces_view(final(out)@) == pieces_view(old(out)@).push(PieceView::Text(t@)),
{
    push_piece(out, SnbtPiece::Text(t.to_owned()));
}

impl NbtTag {
    /// The tag's SNBT as pieces: text, and the bits of floats and doubles.
    pub fn snbt(&self) -> (r: Vec<SnbtPiece>)
        ensures
            pieces_view(r@) == snbt_pieces(tag_value(*self)),
    {
        let mut out: Vec<SnbtPiece> = Vec::new();
        self.push_snbt(&mut out);
        assert(pieces_view(out@) =~= snbt_pieces(tag_value(*self)));
        out
    }

    fn push_snbt(&self, out: &mut Vec<SnbtPiece>)
        ensures
            pieces_view(final(out)@) == pieces_view(old(out)@) + snbt_pieces(tag_value(*self)),
        decreases self,
    {
        let ghost start = pieces_view(old(out)@);
        match self {
            NbtTag::End => {
                assert(pieces_view(final(out)@) =~= start + snbt_pieces(tag_value(*self)));
            },
            NbtTag::Byte(x) => {
                push_piece(out, SnbtPiece::Text(decimal_text(*x as i64)));
                assert(pieces_view(final(out)@) =~= start + snbt_pieces(tag_value(*self)));
            },
            NbtTag::Short(x) => {
                push_piece(out, SnbtPiece::Text(decimal_text(*x as i64)));
                assert(pieces_view(final(out)@) =~= start + snbt_pieces(tag_value(*self)));
            },
            NbtTag::Int(x) => {
                push_piece(out, SnbtPiece::Text(decimal_text(*x as i64)));
                assert(pieces_view(final(out)@) =~= start + snbt_pieces(tag_value(*self)));
            },
            NbtTag::Long(x) => {
                push_piece(out, SnbtPiece::Text(decimal_text(*x)));
                assert(pieces_view(final(out)@) =~= start + snbt_pieces(tag_value(*self)));
            },
            NbtTag::Float(b) => {
                push_piece(out, SnbtPiece::Float(*b));
                assert(pieces_view(final(out)@) =~= start + snbt_pieces(tag_value(*self)));
            },
            NbtTag::Double(b) => {
                push_piece(out, SnbtPiece::Double(*b));
                assert(pieces_view(final(out)@) =~= start + snbt_pieces(tag_value(*self)));
            },
            NbtTag::String(s) => {
                let mut t = String::from_str(lit_one('"'));
                t.append(s.as_str());
                t.append(lit_one('"'));
                push_piece(out, SnbtPiece::Text(t));
                assert(pieces_view(final(out)@) =~= start + snbt_pieces(tag_value(*self)));
            },
            NbtTag::ByteArray(a) => {
                let mut ns: Vec<i64> = Vec::new();
                let mut i: usize = 0;
                while i < a.len()
                    invariant
                        i <= a@.len(),
                        ns@.len() == i,
                        forall|j: int| 0 <= j < i ==> ns@[j] == a@[j] as i64,
                    decreases a@.len() - i,
                {
                    ns.push(a[i] as i64);
                    i = i + 1;
                }
                assert(ns@.map_values(|x: i64| x as int) =~= a@.map_values(|x: u8| x as int));
                push_piece(out, SnbtPiece::Text(array_string('B', &ns)));
                assert(pieces_view(final(out)@) =~= start + snbt_pieces(tag_value(*self)));
            },
            NbtTag::IntArray(a) => {
                let mut ns: Vec<i64> = Vec::new();
                let mut i: usize = 0;
                while i < a.len()
                    invariant
                        i <= a@.len(),
                        ns@.len() == i,
                        forall|j: int| 0 <= j < i ==> ns@[j] == a@[j] as i64,
                    decreases a@.len() - i,
                {
                    ns.push(a[i] as i64);
                    i = i + 1;
                }
                assert(ns@.map_values(|x: i64| x as int) =~= a@.map_values(|x: i32| x as int));
                push_piece(out, SnbtPiece::Text(array_string('I', &ns)));
                assert(pieces_view(final(out)@) =~= start + snbt_pieces(tag_value(*self)));
            },
            NbtTag::LongArray(a) => {
                let mut ns: Vec<i64> = Vec::new();
                let mut i: usize = 0;
                while i < a.len()
                    invariant
                        i <= a@.len(),
                        ns@ == a@.subrange(0, i as int),
                    decreases a@.len() - i,
                {
                    ns.push(a[i]);
                    i = i + 1;
                    assert(ns@ =~= a@.subrange(0, i as int));
                }
                assert(a@.subrange(0, a@.len() as int) =~= a@);
                push_piece(out, SnbtPiece::Text(array_string('L', &ns)));
                assert(pieces_view(final(out)@) =~= start + snbt_pieces(tag_value(*self)));
            },
            NbtTag::List(items) => {
                push_text(out, lit_one('['));
                push_list(items, out);
                push_text(out, lit_one(']'));
                assert(pieces_view(final(out)@) =~= start + snbt_pieces(tag_value(*self)));
            },
            NbtTag::Compound(c) => {
                c.push_snbt(out);
            },
        }
    }
}

fn push_list(items: &Vec<NbtTag>, out: &mut Vec<SnbtPiece>)
    ensures
        pieces_view(final(out)@) == pieces_view(old(out)@) + list_pieces(list_value(items@)),
    decreases items,
{
    let ghost vs = list_value(items@);
    proof {
        lemma_list_value(items@);
    }
    let ghost start = pieces_view(old(out)@);
    let mut i: usize = 0;
    while i < items.len()
        invariant
            i <= items@.len(),
            vs == list_value(items@),
            vs.len() == items@.len(),
            forall|k: int| 0 <= k < items@.len() ==> #[trigger] vs[k] == tag_value(items@[k]),
            pieces_view(out@) == start + list_pieces(vs.subrange(0, i as int)),
        decreases items@.len() - i,
    {
        proof {
            vstd::std_specs::vec::axiom_vec_index_decreases(*items, i as int);
            assert(vs.subrange(0, i + 1).drop_last() =~= vs.subrange(0, i as int));
        }
        let ghost before = pieces_view(out@);
        if i > 0 {
            push_text(out, lit_sep());
        }
        items[i].push_snbt(out);
        proof {
            if i == 0 {
                assert(pieces_view(out@) =~= start + list_pieces(vs.subrange(0, 1)));
            } else {
                assert(pieces_view(out@) =~= start + list_pieces(vs.subrange(0, i + 1)));
            }
        }
        i = i + 1;
    }
    assert(vs.subrange(0, vs.len() as int) =~= vs);
}

impl NbtCompound {
    /// The compound's SNBT as pieces.
    pub fn snbt(&self) -> (r: Vec<SnbtPiece>)
        ensures
            pieces_view(r@) == snbt_pieces(NbtValue::Compound(self.value())),
    {
        let mut out: Vec<SnbtPiece> = Vec::new();
        self.push_snbt(&mut out);
        assert(pieces_view(out@) =~= snbt_pieces(NbtValue::Compound(self.value())));
        out
    }

    fn push_snbt(&self, out: &mut Vec<SnbtPiece>)
        ensures
            pieces_view(final(out)@) == pieces_view(old(out)@) + snbt_pieces(
                NbtValue::Compound(self.value()),
            ),
        decreases self,
    {
        let ghost cs = self.value();
        proof {
            lemma_children_value(self.child_tags@);
        }
        let ghost start = pieces_view(old(out)@);
        push_text(out, lit_one('{'));
        let ghost open_at = pieces_view(out@);
        let mut i: usize = 0;
        while i < self.child_tags.len()
            invariant
                i <= self.child_tags@.len(),
                cs == self.value(),
                cs.len() == self.child_tags@.len(),
                forall|k: int|
                    0 <= k < self.child_tags@.len() ==> #[trigger] cs[k] == (
                    self.child_tags@[k].0@,
                    tag_value(self.child_tags@[k].1),
                ),
                pieces_view(out@) == open_at + children_pieces(cs.subrange(0, i as int)),
            decreases self.child_tags@.len() - i,
        {
            let child = &self.child_tags[i];
            proof {
                vstd::std_specs::vec::axiom_vec_index_decreases(self.child_tags, i as int);
                assert(cs.subrange(0, i + 1).drop_last() =~= cs.subrange(0, i as int));
            }
            let mut label = if i > 0 {
                String::from_str(lit_sep())
            } else {
                String::new()
            };
            label.append(child.0.as_str());
            label.append(lit_colon());
            push_piece(out, SnbtPiece::Text(label));
            child.1.push_snbt(out);
            proof {
                if i == 0 {
                    assert(pieces_view(out@) =~= open_at + children_pieces(cs.subrange(0, 1)));
                } else {
                    assert(pieces_view(out@) =~= open_at + children_pieces(cs.subrange(0, i + 1)));
                }
            }
            i = i + 1;
        }
        assert(cs.subrange(0, cs.len() as int) =~= cs);
        push_text(out, lit_one('}'));
        assert(pieces_view(final(out)@) =~= start + snbt_pieces(NbtValue::Compound(cs)));
    }
}

} // verus!
