//! Names built from a pattern such as `"{first} {last}"`: parsing the
//! pattern into literal text and named slots, checking the slots' word
//! lists, and rendering.
use vstd::prelude::*;
use vstd::utf8::{encode_scalar, encode_utf8};

use crate::rng::{below_outcome, lemma_below_in_range, Rng};
use crate::text::{chars_of, debug_quoted_str, debug_str, decimal, push_char, push_decimal};
use crate::validate::{
    build_error_message, lemma_list_outcome_validated, list_outcome, validated, validate_list, words, BuildError, SpecBuildError,
    Strictness,
};

verus! {

/// Why building a `TemplateGenerator` failed.
#[derive(Debug, Clone, PartialEq, Eq)]
pub enum TemplateError {
    /// The pattern string had no content.
    EmptyPattern,
    /// A `{` was never closed with a matching `}`.
    UnterminatedPlaceholder { at: usize },
    /// A `}` appeared with no preceding `{`.
    UnmatchedClosingBrace { at: usize },
    /// A `{}` placeholder had no slot name inside it.
    EmptyPlaceholder { at: usize },
    /// The same slot name was passed to the builder more than once.
    DuplicateSlot { name: String },
    /// The pattern referenced a slot name that wasn't passed to the builder.
    UnknownSlot { name: String },
    /// One of the slot's word lists failed validation.
    List(BuildError),
}

/// A `TemplateError` with its strings taken as character sequences.
pub enum SpecTemplateError {
    EmptyPattern,
    UnterminatedPlaceholder { at: int },
    UnmatchedClosingBrace { at: int },
    EmptyPlaceholder { at: int },
    DuplicateSlot { name: Seq<char> },
    UnknownSlot { name: Seq<char> },
    List(SpecBuildError),
}

impl View for TemplateError {
    type V = SpecTemplateError;

    open spec fn view(&self) -> SpecTemplateError {
        match self {
            TemplateError::EmptyPattern => SpecTemplateError::EmptyPattern,
            TemplateError::UnterminatedPlaceholder { at } => SpecTemplateError::UnterminatedPlaceholder {
                at: *at as int,
            },
            TemplateError::UnmatchedClosingBrace { at } => SpecTemplateError::UnmatchedClosingBrace {
                at: *at as int,
            },
            TemplateError::EmptyPlaceholder { at } => SpecTemplateError::EmptyPlaceholder {
                at: *at as int,
            },
            TemplateError::DuplicateSlot { name } => SpecTemplateError::DuplicateSlot {
                name: name@,
            },
            TemplateError::UnknownSlot { name } => SpecTemplateError::UnknownSlot { name: name@ },
            TemplateError::List(err) => SpecTemplateError::List(err@),
        }
    }
}

impl From<BuildError> for TemplateError {
    fn from(err: BuildError) -> (r: TemplateError) {
        TemplateError::List(err)
    }
}

impl vstd::std_specs::convert::FromSpecImpl<BuildError> for TemplateError {
    open spec fn obeys_from_spec() -> bool {
        true
    }

    open spec fn from_spec(err: BuildError) -> TemplateError {
        TemplateError::List(err)
    }
}

/// The message that describes a refused template.
pub open spec fn template_error_message(e: SpecTemplateError) -> Seq<char> {
    match e {
        SpecTemplateError::EmptyPattern => "pattern is empty"@,
        SpecTemplateError::UnterminatedPlaceholder { at } => "pattern has an unterminated '{' at byte offset "@
            + decimal(at as nat),
        SpecTemplateError::UnmatchedClosingBrace { at } => "pattern has an unmatched '}' at byte offset "@
            + decimal(at as nat),
        SpecTemplateError::EmptyPlaceholder { at } => "pattern has an empty {} placeholder at byte offset "@
            + decimal(at as nat),
        SpecTemplateError::DuplicateSlot { name } => "slot "@ + debug_str(name)
            + " was passed to the builder more than once"@,
        SpecTemplateError::UnknownSlot { name } => "pattern references slot "@ + debug_str(name)
            + ", which has no word list"@,
        SpecTemplateError::List(err) => build_error_message(err),
    }
}

impl TemplateError {
    /// A sentence that says what is wrong with the pattern or the slots.
    pub fn message(&self) -> (m: String)
        ensures
            m@ == template_error_message(self@),
    {
        match self {
            TemplateError::EmptyPattern => String::from_str("pattern is empty"),
            TemplateError::UnterminatedPlaceholder { at } => {
                let mut m = String::from_str("pattern has an unterminated '{' at byte offset ");
                push_decimal(&mut m, *at);
                m
            },
            TemplateError::UnmatchedClosingBrace { at } => {
                let mut m = String::from_str("pattern has an unmatched '}' at byte offset ");
                push_decimal(&mut m, *at);
                m
            },
            TemplateError::EmptyPlaceholder { at } => {
                let mut m = String::from_str("pattern has an empty {} placeholder at byte offset ");
                push_decimal(&mut m, *at);
                m
            },
            TemplateError::DuplicateSlot { name } => {
                let mut m = String::from_str("slot ");
                m.append(debug_quoted_str(name.as_str()).as_str());
                m.append(" was passed to the builder more than once");
                m
            },
            TemplateError::UnknownSlot { name } => {
                let mut m = String::from_str("pattern references slot ");
                m.append(debug_quoted_str(name.as_str()).as_str());
                m.append(", which has no word list");
                m
            },
            TemplateError::List(err) => err.message(),
        }
    }
}

/// One part of a parsed pattern.
#[derive(Debug, Clone, PartialEq, Eq)]
pub(crate) enum Piece {
    Literal(String),
    Slot(String),
}

/// A `Piece` with its text taken as a character sequence.
pub enum SpecPiece {
    Literal(Seq<char>),
    Slot(Seq<char>),
}

impl View for Piece {
    type V = SpecPiece;

    closed spec fn view(&self) -> SpecPiece {
        match self {
            Piece::Literal(text) => SpecPiece::Literal(text@),
            Piece::Slot(name) => SpecPiece::Slot(name@),
        }
    }
}

/// The pieces as values.
pub(crate) open spec fn spec_pieces(v: Seq<Piece>) -> Seq<SpecPiece> {
    v.map_values(|p: Piece| p@)
}

/// The number of bytes of the UTF-8 encoding of `s`.
pub open spec fn byte_len(s: Seq<char>) -> int {
    encode_utf8(s).len() as int
}

/// The byte offset just past `s`, as a `usize`: the length of its UTF-8
/// encoding, taken modulo `usize::MAX + 1`. A `str` in memory is never
/// longer than `usize::MAX` bytes, so for the prefix of a pattern this is
/// the length itself.
pub open spec fn byte_offset(s: Seq<char>) -> int {
    byte_len(s) % (usize::MAX as int + 1)
}

/// Whether `c` opens or closes a placeholder.
pub open spec fn is_brace(c: char) -> bool {
    c == '{' || c == '}'
}

/// Index of the first brace at or after `i` (`p.len()` if there is none).
pub open spec fn next_brace(p: Seq<char>, i: int) -> int
    decreases p.len() - i,
{
    if i < 0 || i >= p.len() {
        p.len() as int
    } else if is_brace(p[i]) {
        i
    } else {
        next_brace(p, i + 1)
    }
}

/// Index of the first `}` at or after `i` (`p.len()` if there is none).
pub open spec fn next_close(p: Seq<char>, i: int) -> int
    decreases p.len() - i,
{
    if i < 0 || i >= p.len() {
        p.len() as int
    } else if p[i] == '}' {
        i
    } else {
        next_close(p, i + 1)
    }
}

/// `next_brace` finds the first brace at or after `i`.
pub proof fn lemma_next_brace(p: Seq<char>, i: int)
    requires
        0 <= i <= p.len(),
    ensures
        i <= next_brace(p, i) <= p.len(),
        next_brace(p, i) < p.len() ==> is_brace(p[next_brace(p, i)]),
        forall|j: int| i <= j < next_brace(p, i) ==> !is_brace(#[trigger] p[j]),
    decreases p.len() - i,
{
    if i < p.len() && !is_brace(p[i]) {
        lemma_next_brace(p, i + 1);
    }
}

/// `next_close` finds the first `}` at or after `i`.
pub proof fn lemma_next_close(p: Seq<char>, i: int)
    requires
        0 <= i <= p.len(),
    ensures
        i <= next_close(p, i) <= p.len(),
        next_close(p, i) < p.len() ==> p[next_close(p, i)] == '}',
        forall|j: int| i <= j < next_close(p, i) ==> #[trigger] p[j] != '}',
    decreases p.len() - i,
{
    if i < p.len() && p[i] != '}' {
        lemma_next_close(p, i + 1);
    }
}

/// `ps`, then what `r` holds, or the error of `r`.
pub open spec fn then_pieces(ps: Seq<SpecPiece>, r: Result<Seq<SpecPiece>, SpecTemplateError>) -> Result<
    Seq<SpecPiece>,
    SpecTemplateError,
> {
    match r {
        Ok(qs) => Ok(ps + qs),
        Err(e) => Err(e),
    }
}

/// The literal piece for `text`, if `text` is not empty.
pub open spec fn literal_piece(text: Seq<char>) -> Seq<SpecPiece> {
    if text.len() > 0 {
        seq![SpecPiece::Literal(text)]
    } else {
        Seq::empty()
    }
}

/// Parses `p` from index `i` on, where a new run of literal text starts:
/// the text up to the next brace is a literal; a `}` there is unmatched; a
/// `{` opens a placeholder whose name runs to the next `}`. Offsets in
/// errors are byte offsets into `p`.
pub open spec fn parse_from(p: Seq<char>, i: int) -> Result<Seq<SpecPiece>, SpecTemplateError>
    decreases p.len() - i,
    when 0 <= i <= p.len()
{
    proof {
        lemma_next_brace(p, i);
    }
    let k = next_brace(p, i);
    let lead = literal_piece(p.subrange(i, k));
    if k >= p.len() {
        Ok(lead)
    } else if p[k] == '}' {
        Err(SpecTemplateError::UnmatchedClosingBrace { at: byte_offset(p.take(k)) })
    } else {
        proof {
            lemma_next_close(p, k + 1);
        }
        let m = next_close(p, k + 1);
        if m >= p.len() {
            Err(SpecTemplateError::UnterminatedPlaceholder { at: byte_offset(p.take(k)) })
        } else if m == k + 1 {
            Err(SpecTemplateError::EmptyPlaceholder { at: byte_offset(p.take(k)) })
        } else {
            then_pieces(lead.push(SpecPiece::Slot(p.subrange(k + 1, m))), parse_from(p, m + 1))
        }
    }
}

/// What parsing the whole pattern `p` gives.
pub open spec fn parse(p: Seq<char>) -> Result<Seq<SpecPiece>, SpecTemplateError> {
    parse_from(p, 0)
}

/// Whether an executable parse result is the one that `outcome` describes.
pub(crate) open spec fn pieces_result_is(
    r: Result<Vec<Piece>, TemplateError>,
    outcome: Result<Seq<SpecPiece>, SpecTemplateError>,
) -> bool {
    match (r, outcome) {
        (Ok(v), Ok(w)) => spec_pieces(v@) == w,
        (Err(e), Err(f)) => e@ == f,
        _ => false,
    }
}

/// Encoding a concatenation encodes each part.
pub proof fn lemma_encode_concat(a: Seq<char>, b: Seq<char>)
    ensures
        encode_utf8(a + b) == encode_utf8(a) + encode_utf8(b),
    decreases a.len(),
{
    if a.len() == 0 {
        assert(a + b =~= b);
        assert(encode_utf8(a) =~= Seq::<u8>::empty());
        assert(encode_utf8(a) + encode_utf8(b) =~= encode_utf8(b));
    } else {
        assert((a + b).drop_first() =~= a.drop_first() + b);
        lemma_encode_concat(a.drop_first(), b);
        assert(encode_utf8(a + b) =~= encode_scalar(a[0] as u32) + encode_utf8(a.drop_first() + b));
    }
}

proof fn lemma_byte_len_step(p: Seq<char>, k: int)
    requires
        0 <= k < p.len(),
    ensures
        byte_len(p.take(k + 1)) == byte_len(p.take(k)) + encode_scalar(p[k] as u32).len(),
        byte_offset(p.take(k + 1)) == (byte_offset(p.take(k)) + encode_scalar(p[k] as u32).len()) % (
        usize::MAX as int + 1),
{
    assert(p.take(k + 1) =~= p.take(k) + seq![p[k]]);
    lemma_encode_concat(p.take(k), seq![p[k]]);
    assert(seq![p[k]].drop_first() =~= Seq::<char>::empty());
    assert(encode_utf8(seq![p[k]]) =~= encode_scalar(p[k] as u32) + encode_utf8(Seq::<char>::empty()));
    vstd::arithmetic::div_mod::lemma_add_mod_noop(
        byte_len(p.take(k)),
        encode_scalar(p[k] as u32).len() as int,
        usize::MAX as int + 1,
    );
    vstd::arithmetic::div_mod::lemma_small_mod(
        encode_scalar(p[k] as u32).len() as nat,
        (usize::MAX as int + 1) as nat,
    );
}

proof fn lemma_wrapping_add_usize(x: usize, w: usize)
    ensures
        vstd::wrapping::usize_specs::wrapping_add(x, w) == (x + w) % (usize::MAX as int + 1),
{
    let m = usize::MAX as int + 1;
    if x + w <= usize::MAX {
        vstd::arithmetic::div_mod::lemma_small_mod((x + w) as nat, m as nat);
    } else {
        vstd::arithmetic::div_mod::lemma_small_mod((x + w - m) as nat, m as nat);
        vstd::arithmetic::div_mod::lemma_mod_add_multiples_vanish(x + w - m, m);
    }
}

/// The number of bytes `c` takes in UTF-8.
fn utf8_width(c: char) -> (w: usize)
    ensures
        w == encode_scalar(c as u32).len(),
{
    proof {
        vstd::utf8::char_is_scalar(c);
    }
    let u = c as u32;
    if u <= 0x7F {
        1
    } else if u <= 0x7FF {
        2
    } else if u <= 0xFFFF {
        3
    } else {
        4
    }
}

/// Splits a pattern like `"{first} {last}"` into a sequence of literal text
/// and named slot placeholders.
pub(crate) fn parse_pattern(pattern: &str) -> (r: Result<Vec<Piece>, TemplateError>)
    ensures
        pieces_result_is(r, parse(pattern@)),
{
    let p = chars_of(pattern);
    let ghost ps = pattern@;
    let n = p.len();
    let mut pieces: Vec<Piece> = Vec::new();
    let mut i: usize = 0;
    let mut byte: usize = 0;
    assert(ps.take(0) =~= Seq::<char>::empty());
    assert(byte_len(ps.take(0)) == 0);
    proof {
        vstd::arithmetic::div_mod::lemma_small_mod(0, (usize::MAX as int + 1) as nat);
    }
    loop
        invariant
            ps == pattern@,
            p@ == ps,
            n == ps.len(),
            i <= n,
            byte == byte_offset(ps.take(i as int)),
            parse(ps) == then_pieces(spec_pieces(pieces@), parse_from(ps, i as int)),
        decreases n - i,
    {
        proof {
            lemma_next_brace(ps, i as int);
        }
        let mut literal = String::new();
        let mut k = i;
        let mut kbyte = byte;
        while k < n && !(p[k] == '{' || p[k] == '}')
            invariant
                p@ == ps,
                n == ps.len(),
                i <= k <= n,
                literal@ == ps.subrange(i as int, k as int),
                next_brace(ps, k as int) == next_brace(ps, i as int),
                kbyte == byte_offset(ps.take(k as int)),
            decreases n - k,
        {
            proof {
                lemma_byte_len_step(ps, k as int);
            }
            push_char(&mut literal, p[k]);
            let w = utf8_width(p[k]);
            proof {
                lemma_wrapping_add_usize(kbyte, w);
            }
            kbyte = kbyte.wrapping_add(w);
            k = k + 1;
            assert(literal@ =~= ps.subrange(i as int, k as int));
        }
        assert(next_brace(ps, k as int) == k as int);
        assert(next_brace(ps, i as int) == k as int);
        let ghost lead = literal_piece(literal@);
        let lit_empty = literal.as_str().is_empty();
        if k == n {
            let ghost before = spec_pieces(pieces@);
            if !lit_empty {
                pieces.push(Piece::Literal(literal));
            }
            assert(spec_pieces(pieces@) =~= before + lead);
            assert(parse_from(ps, i as int) == Ok::<Seq<SpecPiece>, SpecTemplateError>(lead));
            return Ok(pieces);
        }
        if p[k] == '}' {
            return Err(TemplateError::UnmatchedClosingBrace { at: kbyte });
        }
        proof {
            lemma_next_close(ps, k + 1);
            lemma_byte_len_step(ps, k as int);
        }
        let mut name = String::new();
        let mut m = k + 1;
        proof {
            lemma_wrapping_add_usize(kbyte, 1);
        }
        let mut mbyte = kbyte.wrapping_add(1);
        while m < n && p[m] != '}'
            invariant
                p@ == ps,
                n == ps.len(),
                k + 1 <= m <= n,
                k < n,
                name@ == ps.subrange(k + 1, m as int),
                next_close(ps, m as int) == next_close(ps, k + 1),
                mbyte == byte_offset(ps.take(m as int)),
            decreases n - m,
        {
            proof {
                lemma_byte_len_step(ps, m as int);
            }
            push_char(&mut name, p[m]);
            let w = utf8_width(p[m]);
            proof {
                lemma_wrapping_add_usize(mbyte, w);
            }
            mbyte = mbyte.wrapping_add(w);
            m = m + 1;
            assert(name@ =~= ps.subrange(k + 1, m as int));
        }
        if m == n {
            return Err(TemplateError::UnterminatedPlaceholder { at: kbyte });
        }
        if name.as_str().is_empty() {
            return Err(TemplateError::EmptyPlaceholder { at: kbyte });
        }
        proof {
            lemma_byte_len_step(ps, m as int);
        }
        assert(next_close(ps, m as int) == m as int);
        let ghost before = spec_pieces(pieces@);
        let ghost mid = lead.push(SpecPiece::Slot(ps.subrange(k + 1, m as int)));
        assert(parse_from(ps, i as int) == then_pieces(mid, parse_from(ps, m + 1)));
        if !lit_empty {
            pieces.push(Piece::Literal(literal));
        }
        pieces.push(Piece::Slot(name));
        proof {
            match parse_from(ps, m + 1) {
                Ok(qs) => {
                    assert(before + (mid + qs) =~= (before + mid) + qs);
                },
                Err(e) => {},
            }
        }
        assert(spec_pieces(pieces@) =~= before + lead.push(SpecPiece::Slot(ps.subrange(k + 1, m as int))));
        i = m + 1;
        proof {
            lemma_wrapping_add_usize(mbyte, 1);
        }
        byte = mbyte.wrapping_add(1);
    }
}

/// A slot name with its word list, as values.
pub type SpecSlot = (Seq<char>, Seq<Seq<char>>);

/// The slots passed to the builder, as values.
pub open spec fn input_slots<'a>(v: Seq<(&'a str, Vec<String>)>) -> Seq<SpecSlot> {
    v.map_values(|s: (&'a str, Vec<String>)| (s.0@, words(s.1@)))
}

/// The stored slots, as values.
pub open spec fn stored_slots(v: Seq<(String, Vec<String>)>) -> Seq<SpecSlot> {
    v.map_values(|s: (String, Vec<String>)| (s.0@, words(s.1@)))
}

/// The names of the slots, in order.
pub open spec fn slot_names(slots: Seq<SpecSlot>) -> Seq<Seq<char>> {
    slots.map_values(|s: SpecSlot| s.0)
}

/// The first `n` slots checked in order: a name seen before is a
/// duplicate; otherwise the slot's list is validated under its name.
pub open spec fn slots_outcome(slots: Seq<SpecSlot>, strictness: Strictness, n: nat) -> Result<
    Seq<SpecSlot>,
    SpecTemplateError,
>
    decreases n,
{
    if n == 0 {
        Ok(Seq::empty())
    } else {
        match slots_outcome(slots, strictness, (n - 1) as nat) {
            Err(e) => Err(e),
            Ok(done) => {
                let name = slots[n - 1].0;
                if slot_names(done).contains(name) {
                    Err(SpecTemplateError::DuplicateSlot { name })
                } else {
                    match list_outcome(name, slots[n - 1].1, strictness) {
                        Err(e) => Err(SpecTemplateError::List(e)),
                        Ok(entries) => Ok(done.push((name, entries))),
                    }
                }
            },
        }
    }
}

/// The name of the first slot piece at or after `i` that is not among
/// `names`.
pub open spec fn first_unknown_from(pieces: Seq<SpecPiece>, names: Seq<Seq<char>>, i: int) -> Option<
    Seq<char>,
>
    decreases pieces.len() - i,
{
    if i < 0 || i >= pieces.len() {
        None
    } else {
        match pieces[i] {
            SpecPiece::Slot(name) => if names.contains(name) {
                first_unknown_from(pieces, names, i + 1)
            } else {
                Some(name)
            },
            SpecPiece::Literal(_) => first_unknown_from(pieces, names, i + 1),
        }
    }
}

/// What building a template generator gives: the validated slots and the
/// parsed pattern, or the first error met: an empty pattern, a malformed
/// pattern, a duplicate slot or a refused list (in the order the slots were
/// given), then a slot in the pattern that has no list.
pub open spec fn template_outcome(
    pattern: Seq<char>,
    slots: Seq<SpecSlot>,
    strictness: Strictness,
) -> Result<(Seq<SpecSlot>, Seq<SpecPiece>), SpecTemplateError> {
    if pattern.len() == 0 {
        Err(SpecTemplateError::EmptyPattern)
    } else {
        match parse(pattern) {
            Err(e) => Err(e),
            Ok(pieces) => match slots_outcome(slots, strictness, slots.len()) {
                Err(e) => Err(e),
                Ok(done) => match first_unknown_from(pieces, slot_names(done), 0) {
                    Some(name) => Err(SpecTemplateError::UnknownSlot { name }),
                    None => Ok((done, pieces)),
                },
            },
        }
    }
}

/// Index of the first slot named `name` at or after `i`.
pub open spec fn slot_index_from(slots: Seq<SpecSlot>, name: Seq<char>, i: int) -> int
    decreases slots.len() - i,
{
    if i < 0 || i >= slots.len() {
        slots.len() as int
    } else if slots[i].0 == name {
        i
    } else {
        slot_index_from(slots, name, i + 1)
    }
}

/// The word list of the slot named `name`.
pub open spec fn slot_entries(slots: Seq<SpecSlot>, name: Seq<char>) -> Seq<Seq<char>> {
    slots[slot_index_from(slots, name, 0)].1
}

/// Renders the first `n` pieces from generator state `s`: literal text is
/// copied, and each slot draws one entry of its list.
pub open spec fn render_prefix(slots: Seq<SpecSlot>, pieces: Seq<SpecPiece>, s: u64, n: nat) -> (
    Seq<char>,
    u64,
)
    decreases n,
{
    if n == 0 {
        (Seq::empty(), s)
    } else {
        let (out, s1) = render_prefix(slots, pieces, s, (n - 1) as nat);
        match pieces[n - 1] {
            SpecPiece::Literal(text) => (out + text, s1),
            SpecPiece::Slot(name) => {
                let list = slot_entries(slots, name);
                let (s2, j) = below_outcome(s1, list.len() as u64);
                (out + list[j as int], s2)
            },
        }
    }
}

/// A `TemplateGenerator` as values.
pub struct SpecTemplateGenerator {
    pub slots: Seq<SpecSlot>,
    pub pieces: Seq<SpecPiece>,
    pub rng: u64,
}

/// One rendering of the pattern and the generator state afterwards.
pub open spec fn template_draw(g: SpecTemplateGenerator) -> (Seq<char>, u64) {
    render_prefix(g.slots, g.pieces, g.rng, g.pieces.len())
}

/// Slot names are distinct, every list is non-empty and its length fits in
/// a `u64`, and every slot in the pattern has a list.
pub open spec fn template_wf(g: SpecTemplateGenerator) -> bool {
    &&& forall|i: int, j: int|
        0 <= i < j < g.slots.len() ==> #[trigger] g.slots[i].0 != #[trigger] g.slots[j].0
    &&& forall|i: int| 0 <= i < g.slots.len() ==> 0 < #[trigger] g.slots[i].1.len() <= u64::MAX
    &&& forall|i: int|
        0 <= i < g.pieces.len() ==> (#[trigger] g.pieces[i] matches SpecPiece::Slot(name)
            ==> slot_names(g.slots).contains(name))
}

/// Generates names from an arbitrary pattern such as `"{first} {last}"` or
/// `"{title} {first} \"{nickname}\" {last}"`, picking one entry from each
/// named slot's word list.
#[derive(Debug)]
pub struct TemplateGenerator {
    slots: Vec<(String, Vec<String>)>,
    pieces: Vec<Piece>,
    rng: Rng,
}

impl View for TemplateGenerator {
    type V = SpecTemplateGenerator;

    closed spec fn view(&self) -> SpecTemplateGenerator {
        SpecTemplateGenerator {
            slots: stored_slots(self.slots@),
            pieces: spec_pieces(self.pieces@),
            rng: self.rng@,
        }
    }
}

/// Whether a list of stored slots holds one named `name`.
fn has_slot(slots: &Vec<(String, Vec<String>)>, name: &String) -> (r: bool)
    ensures
        r == slot_names(stored_slots(slots@)).contains(name@),
{
    let n = slots.len();
    let mut k: usize = 0;
    while k < n
        invariant
            n == slots@.len(),
            k <= n,
            forall|j: int| 0 <= j < k ==> slots@[j].0@ != name@,
        decreases n - k,
    {
        if slots[k].0 == *name {
            assert(slot_names(stored_slots(slots@))[k as int] == name@);
            return true;
        }
        k = k + 1;
    }
    assert forall|j: int| 0 <= j < n implies slot_names(stored_slots(slots@))[j] != name@ by {}
    false
}

/// Index of the first stored slot named `name`.
fn find_slot(slots: &Vec<(String, Vec<String>)>, name: &String) -> (k: usize)
    requires
        slot_names(stored_slots(slots@)).contains(name@),
    ensures
        k < slots@.len(),
        k == slot_index_from(stored_slots(slots@), name@, 0),
{
    let ghost ss = stored_slots(slots@);
    let n = slots.len();
    let mut k: usize = 0;
    proof {
        let w = choose|w: int| 0 <= w < slot_names(ss).len() && slot_names(ss)[w] == name@;
        assert(ss[w].0 == name@);
    }
    while k < n
        invariant
            ss == stored_slots(slots@),
            n == slots@.len(),
            k <= n,
            slot_index_from(ss, name@, k as int) == slot_index_from(ss, name@, 0),
            exists|w: int| k <= w < n && ss[w].0 == name@,
        decreases n - k,
    {
        if slots[k].0 == *name {
            return k;
        }
        k = k + 1;
    }
    k
}

impl TemplateGenerator {
    /// The generator's invariant: see `template_wf`.
    pub open spec fn wf(&self) -> bool {
        template_wf(self@)
    }

    /// Builds a generator, validating every slot's word list under
    /// `Strictness::Strict`.
    pub fn new(pattern: &str, slots: Vec<(&str, Vec<String>)>, rng: Rng) -> (r: Result<
        TemplateGenerator,
        TemplateError,
    >)
        ensures
            match (r, template_outcome(pattern@, input_slots(slots@), Strictness::Strict)) {
                (Ok(g), Ok((done, pieces))) => g.wf() && g@ == (SpecTemplateGenerator {
                    slots: done,
                    pieces,
                    rng: rng@,
                }),
                (Err(e), Err(f)) => e@ == f,
                _ => false,
            },
            r matches Ok(g) ==> slots_validated(input_slots(slots@), g@.slots, Strictness::Strict),
    {
        Self::with_strictness(pattern, slots, rng, Strictness::Strict)
    }

    /// Builds a generator, validating every slot's word list under the given
    /// `Strictness`.
    pub fn with_strictness(
        pattern: &str,
        slots: Vec<(&str, Vec<String>)>,
        rng: Rng,
        strictness: Strictness,
    ) -> (r: Result<TemplateGenerator, TemplateError>)
        ensures
            match (r, template_outcome(pattern@, input_slots(slots@), strictness)) {
                (Ok(g), Ok((done, pieces))) => g.wf() && g@ == (SpecTemplateGenerator {
                    slots: done,
                    pieces,
                    rng: rng@,
                }),
                (Err(e), Err(f)) => e@ == f,
                _ => false,
            },
            r matches Ok(g) ==> slots_validated(input_slots(slots@), g@.slots, strictness),
    {
        broadcast use vstd::std_specs::vec::axiom_spec_into_iter;

        proof {
            lemma_template_slots_validated(pattern@, input_slots(slots@), strictness);
        }

        if pattern.is_empty() {
            return Err(TemplateError::EmptyPattern);
        }
        let pieces = match parse_pattern(pattern) {
            Ok(pieces) => pieces,
            Err(e) => return Err(e),
        };
        let ghost input = input_slots(slots@);
        let mut validated: Vec<(String, Vec<String>)> = Vec::new();
        assert(stored_slots(validated@) =~= Seq::<SpecSlot>::empty());
        for slot in it: slots.into_iter()
            invariant
                it.seq() == slots@,
                input == input_slots(slots@),
                pattern@.len() > 0,
                parse(pattern@) == Ok::<Seq<SpecPiece>, SpecTemplateError>(spec_pieces(pieces@)),
                forall|k: int|
                    0 <= k < validated@.len() ==> #[trigger] stored_slots(validated@)[k].1.len()
                        <= u64::MAX,
                slots_outcome(input, strictness, it.index() as nat) == Ok::<
                    Seq<SpecSlot>,
                    SpecTemplateError,
                >(stored_slots(validated@)),
        {
            let (name, entries) = slot;
            assert(input[it.index() as int] == (name@, words(entries@)));
            let name_string = String::from_str(name);
            if has_slot(&validated, &name_string) {
                proof {
                    lemma_slots_outcome_stable(input, strictness, (it.index() + 1) as nat, input.len());
                }
                return Err(TemplateError::DuplicateSlot { name: name_string });
            }
            let entries = match validate_list(name, entries, strictness) {
                Ok(v) => v,
                Err(e) => {
                    proof {
                        lemma_slots_outcome_stable(input, strictness, (it.index() + 1) as nat, input.len());
                    }
                    return Err(TemplateError::from(e));
                },
            };
            let ghost done = stored_slots(validated@);
            let ghost added = (name_string@, words(entries@));
            let _entry_count = entries.len();
            validated.push((name_string, entries));
            assert(stored_slots(validated@) =~= done.push(added));
        }
        let n = pieces.len();
        let mut i: usize = 0;
        while i < n
            invariant
                n == pieces@.len(),
                i <= n,
                pattern@.len() > 0,
                parse(pattern@) == Ok::<Seq<SpecPiece>, SpecTemplateError>(spec_pieces(pieces@)),
                input == input_slots(slots@),
                forall|k: int|
                    0 <= k < validated@.len() ==> #[trigger] stored_slots(validated@)[k].1.len()
                        <= u64::MAX,
                slots_outcome(input, strictness, input.len()) == Ok::<
                    Seq<SpecSlot>,
                    SpecTemplateError,
                >(stored_slots(validated@)),
                first_unknown_from(spec_pieces(pieces@), slot_names(stored_slots(validated@)), i as int)
                    == first_unknown_from(spec_pieces(pieces@), slot_names(stored_slots(validated@)), 0),
                forall|j: int|
                    0 <= j < i ==> (#[trigger] spec_pieces(pieces@)[j] matches SpecPiece::Slot(name)
                        ==> slot_names(stored_slots(validated@)).contains(name)),
            decreases n - i,
        {
            match &pieces[i] {
                Piece::Slot(name) => {
                    assert(spec_pieces(pieces@)[i as int] == SpecPiece::Slot(name@));
                    if !has_slot(&validated, name) {
                        return Err(TemplateError::UnknownSlot { name: name.clone() });
                    }
                },
                Piece::Literal(_) => {},
            }
            i = i + 1;
        }
        proof {
            lemma_slots_outcome_wf(input, strictness, input.len());
            assert(template_outcome(pattern@, input, strictness) == Ok::<
                (Seq<SpecSlot>, Seq<SpecPiece>),
                SpecTemplateError,
            >((stored_slots(validated@), spec_pieces(pieces@))));
        }
        Ok(TemplateGenerator { slots: validated, pieces, rng })
    }

    /// Renders the pattern once, picking a random entry from each slot's
    /// word list.
    pub fn generate(&mut self) -> (name: String)
        requires
            old(self).wf(),
        ensures
            final(self).wf(),
            final(self)@.slots == old(self)@.slots,
            final(self)@.pieces == old(self)@.pieces,
            (name@, final(self)@.rng) == template_draw(old(self)@),
    {
        let ghost g = self@;
        let mut out = String::new();
        let n = self.pieces.len();
        let mut idx: usize = 0;
        while idx < n
            invariant
                n == self.pieces@.len(),
                idx <= n,
                self@.slots == g.slots,
                self@.pieces == g.pieces,
                template_wf(g),
                (out@, self@.rng) == render_prefix(g.slots, g.pieces, g.rng, idx as nat),
            decreases n - idx,
        {
            let ghost before = out@;
            match &self.pieces[idx] {
                Piece::Literal(text) => {
                    out.append(text.as_str());
                },
                Piece::Slot(name) => {
                    assert(g.pieces[idx as int] == SpecPiece::Slot(name@));
                    let k = find_slot(&self.slots, name);
                    let len = self.slots[k].1.len();
                    assert(g.slots[k as int].1.len() == len);
                    let j = self.rng.below(len);
                    assert(g.slots[k as int].1[j as int] == self.slots[k as int].1[j as int]@);
                    out.append(self.slots[k].1[j].as_str());
                },
            }
            idx = idx + 1;
        }
        out
    }
}

/// Once a prefix of the slots has failed, every longer prefix fails the same
/// way.
pub proof fn lemma_slots_outcome_stable(slots: Seq<SpecSlot>, strictness: Strictness, i: nat, n: nat)
    requires
        i <= n,
        slots_outcome(slots, strictness, i) is Err,
    ensures
        slots_outcome(slots, strictness, n) == slots_outcome(slots, strictness, i),
    decreases n,
{
    if n > i {
        lemma_slots_outcome_stable(slots, strictness, i, (n - 1) as nat);
    }
}

/// Accepted slots have distinct names and non-empty lists.
pub proof fn lemma_slots_outcome_wf(slots: Seq<SpecSlot>, strictness: Strictness, n: nat)
    ensures
        slots_outcome(slots, strictness, n) matches Ok(done) ==> {
            &&& forall|i: int, j: int|
                0 <= i < j < done.len() ==> #[trigger] done[i].0 != #[trigger] done[j].0
            &&& forall|i: int| 0 <= i < done.len() ==> #[trigger] done[i].1.len() > 0
        },
    decreases n,
{
    if n > 0 {
        lemma_slots_outcome_wf(slots, strictness, (n - 1) as nat);
        if let Ok(done) = slots_outcome(slots, strictness, (n - 1) as nat) {
            let name = slots[n - 1].0;
            if !slot_names(done).contains(name) {
                if let Ok(entries) = list_outcome(name, slots[n - 1].1, strictness) {
                    let next = done.push((name, entries));
                    assert forall|i: int, j: int|
                        0 <= i < j < next.len() implies #[trigger] next[i].0 != #[trigger] next[j].0 by {
                        if j == next.len() - 1 {
                            assert(slot_names(done)[i] == done[i].0);
                        }
                    }
                }
            }
        }
    }
}

/// The pattern text that a piece stands for.
pub open spec fn piece_text(p: SpecPiece) -> Seq<char> {
    match p {
        SpecPiece::Literal(text) => text,
        SpecPiece::Slot(name) => seq!['{'] + name + seq!['}'],
    }
}

/// The pattern that a sequence of pieces spells.
pub open spec fn unparse(ps: Seq<SpecPiece>) -> Seq<char>
    decreases ps.len(),
{
    if ps.len() == 0 {
        Seq::empty()
    } else {
        piece_text(ps[0]) + unparse(ps.drop_first())
    }
}

/// Pieces as parsing produces them: literal text is non-empty and holds no
/// brace, a slot name is non-empty and holds no `}`, and two literals never
/// stand side by side.
pub open spec fn canonical(ps: Seq<SpecPiece>) -> bool {
    &&& forall|i: int|
        0 <= i < ps.len() ==> (#[trigger] ps[i] matches SpecPiece::Literal(text) ==> text.len() > 0
            && forall|j: int| 0 <= j < text.len() ==> !is_brace(#[trigger] text[j]))
    &&& forall|i: int|
        0 <= i < ps.len() ==> (#[trigger] ps[i] matches SpecPiece::Slot(name) ==> name.len() > 0
            && forall|j: int| 0 <= j < name.len() ==> #[trigger] name[j] != '}')
    &&& forall|i: int|
        #![trigger ps[i]]
        0 <= i < ps.len() - 1 ==> !(ps[i] is Literal && ps[i + 1] is Literal)
}

proof fn lemma_unparse_concat(a: Seq<SpecPiece>, b: Seq<SpecPiece>)
    ensures
        unparse(a + b) == unparse(a) + unparse(b),
    decreases a.len(),
{
    if a.len() == 0 {
        assert(a + b =~= b);
        assert(unparse(a) + unparse(b) =~= unparse(b));
    } else {
        assert((a + b).drop_first() =~= a.drop_first() + b);
        lemma_unparse_concat(a.drop_first(), b);
        assert(unparse(a + b) =~= piece_text(a[0]) + unparse(a.drop_first() + b));
        assert(piece_text(a[0]) + (unparse(a.drop_first()) + unparse(b)) =~= (piece_text(a[0])
            + unparse(a.drop_first())) + unparse(b));
    }
}

proof fn lemma_unparse_literal(text: Seq<char>)
    ensures
        unparse(literal_piece(text)) == text,
{
    if text.len() > 0 {
        let lead = literal_piece(text);
        assert(lead.drop_first() =~= Seq::<SpecPiece>::empty());
        assert(unparse(lead.drop_first()) == Seq::<char>::empty());
        assert(unparse(lead) =~= text);
    } else {
        assert(unparse(literal_piece(text)) =~= text);
    }
}

proof fn lemma_unparse_slot(name: Seq<char>)
    ensures
        unparse(seq![SpecPiece::Slot(name)]) == seq!['{'] + name + seq!['}'],
{
    let one = seq![SpecPiece::Slot(name)];
    assert(one.drop_first() =~= Seq::<SpecPiece>::empty());
    assert(unparse(one.drop_first()) == Seq::<char>::empty());
    assert(unparse(one) =~= seq!['{'] + name + seq!['}']);
}

proof fn lemma_canonical_literal(text: Seq<char>)
    requires
        forall|j: int| 0 <= j < text.len() ==> !is_brace(#[trigger] text[j]),
    ensures
        canonical(literal_piece(text)),
{
}

proof fn lemma_canonical_step(text: Seq<char>, name: Seq<char>, rest: Seq<SpecPiece>)
    requires
        forall|j: int| 0 <= j < text.len() ==> !is_brace(#[trigger] text[j]),
        name.len() > 0,
        forall|j: int| 0 <= j < name.len() ==> #[trigger] name[j] != '}',
        canonical(rest),
    ensures
        canonical(literal_piece(text).push(SpecPiece::Slot(name)) + rest),
{
    let mid = literal_piece(text).push(SpecPiece::Slot(name));
    let ps = mid + rest;
    assert forall|x: int| 0 <= x < ps.len() implies (#[trigger] ps[x] matches SpecPiece::Literal(t)
        ==> t.len() > 0 && forall|j: int| 0 <= j < t.len() ==> !is_brace(#[trigger] t[j])) by {
        if x >= mid.len() {
            assert(ps[x] == rest[x - mid.len()]);
        }
    }
    assert forall|x: int| 0 <= x < ps.len() implies (#[trigger] ps[x] matches SpecPiece::Slot(n)
        ==> n.len() > 0 && forall|j: int| 0 <= j < n.len() ==> #[trigger] n[j] != '}') by {
        if x >= mid.len() {
            assert(ps[x] == rest[x - mid.len()]);
        }
    }
    assert forall|x: int| #![trigger ps[x]] 0 <= x < ps.len() - 1 implies !(ps[x] is Literal
        && ps[x + 1] is Literal) by {
        if x + 1 < mid.len() {
            assert(ps[x + 1] == SpecPiece::Slot(name));
        } else if x + 1 == mid.len() {
            assert(ps[x] == SpecPiece::Slot(name));
        } else {
            assert(ps[x] == rest[x - mid.len()]);
            assert(ps[x + 1] == rest[x + 1 - mid.len()]);
        }
    }
}

proof fn lemma_parse_from_round_trip(p: Seq<char>, i: int)
    requires
        0 <= i <= p.len(),
    ensures
        parse_from(p, i) matches Ok(ps) ==> unparse(ps) == p.subrange(i, p.len() as int)
            && canonical(ps),
    decreases p.len() - i,
{
    lemma_next_brace(p, i);
    let k = next_brace(p, i);
    let text = p.subrange(i, k);
    lemma_unparse_literal(text);
    assert forall|j: int| 0 <= j < text.len() implies !is_brace(#[trigger] text[j]) by {
        assert(text[j] == p[i + j]);
    }
    if k >= p.len() {
        lemma_canonical_literal(text);
    } else if p[k] != '}' {
        lemma_next_close(p, k + 1);
        let m = next_close(p, k + 1);
        if m < p.len() && m != k + 1 {
            lemma_parse_from_round_trip(p, m + 1);
            if let Ok(rest) = parse_from(p, m + 1) {
                let name = p.subrange(k + 1, m);
                let lead = literal_piece(text);
                let mid = lead.push(SpecPiece::Slot(name));
                assert(mid =~= lead + seq![SpecPiece::Slot(name)]);
                lemma_unparse_concat(lead, seq![SpecPiece::Slot(name)]);
                lemma_unparse_concat(mid, rest);
                lemma_unparse_slot(name);
                assert(p[k] == '{');
                assert(p[m] == '}');
                assert(unparse(mid + rest) =~= p.subrange(i, p.len() as int));
                assert forall|j: int| 0 <= j < name.len() implies #[trigger] name[j] != '}' by {
                    assert(name[j] == p[k + 1 + j]);
                }
                lemma_canonical_step(text, name, rest);
            }
        }
    }
}

/// Parsing loses nothing: the pieces of an accepted pattern spell the
/// pattern again, and they are in the form parsing produces.
pub proof fn lemma_parse_round_trip(p: Seq<char>)
    ensures
        parse(p) matches Ok(ps) ==> unparse(ps) == p && canonical(ps),
{
    lemma_parse_from_round_trip(p, 0);
    assert(p.subrange(0, p.len() as int) =~= p);
}

proof fn lemma_next_brace_at(p: Seq<char>, i: int, j: int)
    requires
        0 <= i <= j <= p.len(),
        forall|x: int| i <= x < j ==> !is_brace(#[trigger] p[x]),
        j == p.len() || is_brace(p[j]),
    ensures
        next_brace(p, i) == j,
    decreases j - i,
{
    if i < j {
        lemma_next_brace_at(p, i + 1, j);
    }
}

proof fn lemma_next_close_at(p: Seq<char>, i: int, j: int)
    requires
        0 <= i <= j < p.len(),
        forall|x: int| i <= x < j ==> #[trigger] p[x] != '}',
        p[j] == '}',
    ensures
        next_close(p, i) == j,
    decreases j - i,
{
    if i < j {
        lemma_next_close_at(p, i + 1, j);
    }
}

proof fn lemma_canonical_skip(ps: Seq<SpecPiece>, j: int)
    requires
        canonical(ps),
        0 <= j <= ps.len(),
    ensures
        canonical(ps.skip(j)),
{
    let q = ps.skip(j);
    assert forall|x: int| 0 <= x < q.len() implies (#[trigger] q[x] matches SpecPiece::Literal(t)
        ==> t.len() > 0 && forall|y: int| 0 <= y < t.len() ==> !is_brace(#[trigger] t[y])) by {
        assert(q[x] == ps[x + j]);
    }
    assert forall|x: int| 0 <= x < q.len() implies (#[trigger] q[x] matches SpecPiece::Slot(n)
        ==> n.len() > 0 && forall|y: int| 0 <= y < n.len() ==> #[trigger] n[y] != '}') by {
        assert(q[x] == ps[x + j]);
    }
    assert forall|x: int| #![trigger q[x]] 0 <= x < q.len() - 1 implies !(q[x] is Literal
        && q[x + 1] is Literal) by {
        assert(q[x] == ps[x + j]);
        assert(q[x + 1] == ps[x + 1 + j]);
    }
}

/// Parsing a slot piece written out: `{name}` followed by `rest`.
proof fn lemma_parse_slot_text(p: Seq<char>, k: int, name: Seq<char>, rest: Seq<SpecPiece>)
    requires
        0 <= k,
        k + name.len() + 2 <= p.len(),
        name.len() > 0,
        forall|y: int| 0 <= y < name.len() ==> #[trigger] name[y] != '}',
        p.subrange(k, p.len() as int) == seq!['{'] + name + seq!['}'] + unparse(rest),
        parse_from(p, k + name.len() + 2) == Ok::<Seq<SpecPiece>, SpecTemplateError>(rest),
    ensures
        p[k] == '{',
        next_close(p, k + 1) == k + 1 + name.len(),
        p.subrange(k + 1, k + 1 + name.len()) == name,
{
    let tail = p.subrange(k, p.len() as int);
    assert(p[k] == tail[0]);
    assert forall|x: int| k + 1 <= x < k + 1 + name.len() implies #[trigger] p[x] != '}' by {
        assert(p[x] == tail[x - k]);
        assert(tail[x - k] == name[x - k - 1]);
    }
    assert(p[k + 1 + name.len()] == tail[1 + name.len() as int]);
    lemma_next_close_at(p, k + 1, k + 1 + name.len());
    assert forall|y: int| 0 <= y < name.len() implies p.subrange(k + 1, k + 1 + name.len())[y] == name[y] by {
        assert(p[k + 1 + y] == tail[1 + y]);
    }
    assert(p.subrange(k + 1, k + 1 + name.len()) =~= name);
}

proof fn lemma_parse_unparse_from(p: Seq<char>, i: int, ps: Seq<SpecPiece>)
    requires
        0 <= i <= p.len(),
        canonical(ps),
        p.subrange(i, p.len() as int) == unparse(ps),
    ensures
        parse_from(p, i) == Ok::<Seq<SpecPiece>, SpecTemplateError>(ps),
    decreases ps.len(),
{
    let u = p.subrange(i, p.len() as int);
    if ps.len() == 0 {
        assert(u.len() == 0);
        lemma_next_brace_at(p, i, i);
        assert(literal_piece(p.subrange(i, i)) =~= ps);
    } else {
        assert(unparse(ps) == piece_text(ps[0]) + unparse(ps.drop_first()));
        lemma_canonical_skip(ps, 1);
        assert(ps.skip(1) =~= ps.drop_first());
        match ps[0] {
            SpecPiece::Literal(t) => {
                assert(t.len() > 0 && forall|y: int| 0 <= y < t.len() ==> !is_brace(#[trigger] t[y]));
                assert forall|x: int| i <= x < i + t.len() implies !is_brace(#[trigger] p[x]) by {
                    assert(p[x] == u[x - i]);
                    assert(u[x - i] == t[x - i]);
                }
                let k = i + t.len();
                assert(p.subrange(i, k) =~= t) by {
                    assert forall|y: int| 0 <= y < t.len() implies p.subrange(i, k)[y] == t[y] by {
                        assert(p[i + y] == u[y]);
                    }
                }
                if ps.len() == 1 {
                    assert(ps.drop_first() =~= Seq::<SpecPiece>::empty());
                    assert(unparse(ps.drop_first()) == Seq::<char>::empty());
                    assert(u =~= t);
                    lemma_next_brace_at(p, i, k);
                    assert(literal_piece(t) =~= ps);
                } else {
                    assert(!(ps[0] is Literal && ps[1] is Literal));
                    let rest1 = ps.drop_first();
                    assert(rest1[0] == ps[1]);
                    assert(unparse(rest1) == piece_text(rest1[0]) + unparse(rest1.drop_first()));
                    match ps[1] {
                        SpecPiece::Slot(name) => {
                            assert(name.len() > 0 && forall|y: int| 0 <= y < name.len() ==> #[trigger] name[y] != '}');
                            let rest = rest1.drop_first();
                            assert(rest =~= ps.skip(2));
                            lemma_canonical_skip(ps, 2);
                            let after = k + name.len() + 2;
                            assert(u =~= t + (seq!['{'] + name + seq!['}'] + unparse(rest)));
                            assert(p.subrange(k, p.len() as int) =~= seq!['{'] + name + seq!['}'] + unparse(rest)) by {
                                assert forall|y: int| 0 <= y < p.len() - k implies p.subrange(k, p.len() as int)[y]
                                    == (seq!['{'] + name + seq!['}'] + unparse(rest))[y] by {
                                    assert(p[k + y] == u[t.len() + y]);
                                }
                            }
                            assert(p.subrange(after, p.len() as int) =~= unparse(rest)) by {
                                assert forall|y: int| 0 <= y < p.len() - after implies p.subrange(after, p.len() as int)[y]
                                    == unparse(rest)[y] by {
                                    assert(p[after + y] == u[t.len() + name.len() + 2 + y]);
                                }
                            }
                            lemma_parse_unparse_from(p, after, rest);
                            lemma_parse_slot_text(p, k, name, rest);
                            lemma_next_brace_at(p, i, k);
                            assert(literal_piece(t).push(SpecPiece::Slot(name)) + rest =~= ps);
                        },
                        SpecPiece::Literal(_) => {},
                    }
                }
            },
            SpecPiece::Slot(name) => {
                assert(name.len() > 0 && forall|y: int| 0 <= y < name.len() ==> #[trigger] name[y] != '}');
                let rest = ps.drop_first();
                let after = i + name.len() + 2;
                assert(p.subrange(after, p.len() as int) =~= unparse(rest)) by {
                    assert forall|y: int| 0 <= y < p.len() - after implies p.subrange(after, p.len() as int)[y]
                        == unparse(rest)[y] by {
                        assert(p[after + y] == u[name.len() + 2 + y]);
                    }
                }
                lemma_parse_unparse_from(p, after, rest);
                lemma_parse_slot_text(p, i, name, rest);
                lemma_next_brace_at(p, i, i);
                assert(literal_piece(p.subrange(i, i)) =~= Seq::<SpecPiece>::empty());
                assert(Seq::<SpecPiece>::empty().push(SpecPiece::Slot(name)) + rest =~= ps);
            },
        }
    }
}

/// Every sequence of pieces in the form parsing produces is what parsing
/// its own text gives: parsing and spelling out are inverse to each other.
pub proof fn lemma_parse_unparse(ps: Seq<SpecPiece>)
    requires
        canonical(ps),
    ensures
        parse(unparse(ps)) == Ok::<Seq<SpecPiece>, SpecTemplateError>(ps),
{
    let p = unparse(ps);
    assert(p.subrange(0, p.len() as int) =~= p);
    lemma_parse_unparse_from(p, 0, ps);
}

/// `e` is the error for a defect at index `k` of `p`: a `}` that closes
/// nothing, a `{` with no `}` after it, or a `{` directly followed by `}`;
/// its offset is the byte offset of index `k`.
pub open spec fn defect_at(p: Seq<char>, k: int, e: SpecTemplateError) -> bool {
    &&& 0 <= k < p.len()
    &&& match e {
        SpecTemplateError::UnmatchedClosingBrace { at } => at == byte_offset(p.take(k)) && p[k]
            == '}',
        SpecTemplateError::UnterminatedPlaceholder { at } => at == byte_offset(p.take(k)) && p[k]
            == '{' && forall|j: int| k < j < p.len() ==> #[trigger] p[j] != '}',
        SpecTemplateError::EmptyPlaceholder { at } => at == byte_offset(p.take(k)) && p[k] == '{'
            && k + 1 < p.len() && p[k + 1] == '}',
        _ => false,
    }
}

proof fn lemma_next_brace_prefix(p: Seq<char>, k: int, i: int)
    requires
        0 <= i <= k <= p.len(),
    ensures
        next_brace(p.take(k), i) == if next_brace(p, i) < k {
            next_brace(p, i)
        } else {
            k
        },
    decreases k - i,
{
    lemma_next_brace(p, i);
    if i < k {
        assert(p.take(k)[i] == p[i]);
        lemma_next_brace_prefix(p, k, i + 1);
    }
}

proof fn lemma_next_close_prefix(p: Seq<char>, k: int, i: int)
    requires
        0 <= i <= k <= p.len(),
    ensures
        next_close(p.take(k), i) == if next_close(p, i) < k {
            next_close(p, i)
        } else {
            k
        },
    decreases k - i,
{
    lemma_next_close(p, i);
    if i < k {
        assert(p.take(k)[i] == p[i]);
        lemma_next_close_prefix(p, k, i + 1);
    }
}

proof fn lemma_parse_from_error(p: Seq<char>, i: int)
    requires
        0 <= i <= p.len(),
    ensures
        parse_from(p, i) matches Err(e) ==> exists|k: int|
            i <= k && defect_at(p, k, e) && #[trigger] parse_from(p.take(k), i) is Ok,
    decreases p.len() - i,
{
    lemma_next_brace(p, i);
    let kb = next_brace(p, i);
    if kb < p.len() {
        let q = p.take(kb);
        lemma_next_brace_prefix(p, kb, i);
        assert(parse_from(q, i) is Ok);
        if p[kb] == '}' {
            assert(defect_at(p, kb, parse_from(p, i)->Err_0));
        } else {
            lemma_next_close(p, kb + 1);
            let m = next_close(p, kb + 1);
            if m >= p.len() {
                assert(defect_at(p, kb, parse_from(p, i)->Err_0));
            } else if m == kb + 1 {
                assert(defect_at(p, kb, parse_from(p, i)->Err_0));
            } else {
                lemma_parse_from_error(p, m + 1);
                if let Err(e) = parse_from(p, m + 1) {
                    let k = choose|k: int|
                        m + 1 <= k && defect_at(p, k, e) && #[trigger] parse_from(p.take(k), m + 1) is Ok;
                    let q2 = p.take(k);
                    lemma_next_brace_prefix(p, k, i);
                    lemma_next_close_prefix(p, k, kb + 1);
                    assert(q2[kb] == p[kb]);
                    assert(q2.subrange(i, kb) =~= p.subrange(i, kb));
                    assert(parse_from(q2, i) is Ok);
                }
            }
        }
    }
}

/// A refused pattern is refused for its leftmost defect: the error names a
/// `}` that closes nothing, a `{` never closed, or an empty `{}`, at the
/// byte offset where it stands, and the pattern up to that point parses.
pub proof fn lemma_parse_error_leftmost(p: Seq<char>)
    ensures
        parse(p) matches Err(e) ==> exists|k: int|
            defect_at(p, k, e) && #[trigger] parse(p.take(k)) is Ok,
{
    lemma_parse_from_error(p, 0);
    if let Err(e) = parse(p) {
        let k = choose|k: int| 0 <= k && defect_at(p, k, e) && #[trigger] parse_from(p.take(k), 0) is Ok;
        assert(parse(p.take(k)) is Ok);
    }
}

/// The characters of a sequence of texts, joined in order.
pub open spec fn concat(texts: Seq<Seq<char>>) -> Seq<char>
    decreases texts.len(),
{
    if texts.len() == 0 {
        Seq::empty()
    } else {
        concat(texts.drop_last()) + texts.last()
    }
}

/// `texts` fills `pieces`: a literal stands for itself, and a slot for one
/// entry of its word list.
pub open spec fn fills(slots: Seq<SpecSlot>, pieces: Seq<SpecPiece>, texts: Seq<Seq<char>>) -> bool {
    &&& texts.len() == pieces.len()
    &&& forall|i: int|
        0 <= i < pieces.len() ==> match #[trigger] pieces[i] {
            SpecPiece::Literal(t) => texts[i] == t,
            SpecPiece::Slot(name) => slot_entries(slots, name).contains(texts[i]),
        }
}

/// The text drawn for each of the first `n` pieces.
pub open spec fn drawn_texts(slots: Seq<SpecSlot>, pieces: Seq<SpecPiece>, s: u64, n: nat) -> Seq<
    Seq<char>,
>
    decreases n,
{
    if n == 0 {
        Seq::empty()
    } else {
        let prev = drawn_texts(slots, pieces, s, (n - 1) as nat);
        let s1 = render_prefix(slots, pieces, s, (n - 1) as nat).1;
        match pieces[n - 1] {
            SpecPiece::Literal(text) => prev.push(text),
            SpecPiece::Slot(name) => {
                let list = slot_entries(slots, name);
                prev.push(list[below_outcome(s1, list.len() as u64).1 as int])
            },
        }
    }
}

proof fn lemma_slot_index(slots: Seq<SpecSlot>, name: Seq<char>, i: int)
    requires
        0 <= i <= slots.len(),
        exists|w: int| i <= w < slots.len() && slots[w].0 == name,
    ensures
        i <= slot_index_from(slots, name, i) < slots.len(),
        slots[slot_index_from(slots, name, i)].0 == name,
    decreases slots.len() - i,
{
    if slots[i].0 != name {
        let w = choose|w: int| i <= w < slots.len() && slots[w].0 == name;
        assert(w != i);
        lemma_slot_index(slots, name, i + 1);
    }
}

proof fn lemma_drawn_texts(g: SpecTemplateGenerator, n: nat)
    requires
        template_wf(g),
        n <= g.pieces.len(),
    ensures
        fills(g.slots, g.pieces.take(n as int), drawn_texts(g.slots, g.pieces, g.rng, n)),
        render_prefix(g.slots, g.pieces, g.rng, n).0 == concat(drawn_texts(g.slots, g.pieces, g.rng, n)),
    decreases n,
{
    let texts = drawn_texts(g.slots, g.pieces, g.rng, n);
    if n == 0 {
        assert(texts =~= Seq::<Seq<char>>::empty());
    } else {
        lemma_drawn_texts(g, (n - 1) as nat);
        let prev = drawn_texts(g.slots, g.pieces, g.rng, (n - 1) as nat);
        assert(texts.drop_last() =~= prev);
        let s1 = render_prefix(g.slots, g.pieces, g.rng, (n - 1) as nat).1;
        let ps = g.pieces.take(n as int);
        match g.pieces[n - 1] {
            SpecPiece::Literal(text) => {},
            SpecPiece::Slot(name) => {
                assert(g.pieces[n - 1] matches SpecPiece::Slot(nm) ==> slot_names(g.slots).contains(nm));
                let w = choose|w: int| 0 <= w < slot_names(g.slots).len() && slot_names(g.slots)[w] == name;
                assert(g.slots[w].0 == name);
                lemma_slot_index(g.slots, name, 0);
                let idx = slot_index_from(g.slots, name, 0);
                let list = slot_entries(g.slots, name);
                assert(list == g.slots[idx].1);
                assert(list.len() > 0);
                lemma_below_in_range(s1, list.len() as u64);
                assert(texts.last() == list[below_outcome(s1, list.len() as u64).1 as int]);
            },
        }
        assert forall|i: int| 0 <= i < ps.len() implies match #[trigger] ps[i] {
            SpecPiece::Literal(t) => texts[i] == t,
            SpecPiece::Slot(name) => slot_entries(g.slots, name).contains(texts[i]),
        } by {
            if i < n - 1 {
                assert(ps[i] == g.pieces.take((n - 1) as int)[i]);
                assert(texts[i] == prev[i]);
            }
        }
    }
}

/// Every rendered name is the pattern with each slot replaced by an entry
/// of that slot's word list.
pub proof fn lemma_render_fills_slots(g: SpecTemplateGenerator)
    requires
        template_wf(g),
    ensures
        exists|texts: Seq<Seq<char>>| fills(g.slots, g.pieces, texts) && template_draw(g).0 == concat(
            texts,
        ),
{
    lemma_drawn_texts(g, g.pieces.len());
    assert(g.pieces.take(g.pieces.len() as int) =~= g.pieces);
    let texts = drawn_texts(g.slots, g.pieces, g.rng, g.pieces.len());
    assert(fills(g.slots, g.pieces, texts));
}

/// Each kept slot has the name of the slot given at its place, and its
/// list is that slot's list validated.
pub open spec fn slots_validated(input: Seq<SpecSlot>, kept: Seq<SpecSlot>, strictness: Strictness) -> bool {
    &&& kept.len() == input.len()
    &&& forall|i: int|
        0 <= i < input.len() ==> #[trigger] kept[i].0 == input[i].0 && validated(
            input[i].1,
            kept[i].1,
            strictness,
        )
}

#[verifier::spinoff_prover]
proof fn lemma_slots_outcome_shape(slots: Seq<SpecSlot>, strictness: Strictness, n: nat)
    requires
        n <= slots.len(),
    ensures
        slots_outcome(slots, strictness, n) matches Ok(done) ==> {
            &&& done.len() == n
            &&& forall|i: int|
                0 <= i < n ==> #[trigger] done[i].0 == slots[i].0 && list_outcome(
                    slots[i].0,
                    slots[i].1,
                    strictness,
                ) == Ok::<Seq<Seq<char>>, SpecBuildError>(done[i].1)
        },
    decreases n,
{
    if n > 0 {
        lemma_slots_outcome_shape(slots, strictness, (n - 1) as nat);
        if let Ok(prev) = slots_outcome(slots, strictness, (n - 1) as nat) {
            let name = slots[n - 1].0;
            if !slot_names(prev).contains(name) {
                if let Ok(entries) = list_outcome(name, slots[n - 1].1, strictness) {
                    let done = prev.push((name, entries));
                    assert(slots_outcome(slots, strictness, n) == Ok::<Seq<SpecSlot>, SpecTemplateError>(done));
                    assert forall|i: int| 0 <= i < n implies #[trigger] done[i].0 == slots[i].0
                        && list_outcome(slots[i].0, slots[i].1, strictness) == Ok::<
                        Seq<Seq<char>>,
                        SpecBuildError,
                    >(done[i].1) by {
                        if i < n - 1 {
                            assert(done[i] == prev[i]);
                        }
                    }
                }
            }
        }
    }
}

/// An accepted template keeps one slot per slot given, in order and under
/// its own name, and each slot's list is its input list validated: the
/// input itself under strict validation, its repaired form under lenient
/// validation, with no empty, untrimmed or repeated entry either way.
pub proof fn lemma_template_slots_validated(
    pattern: Seq<char>,
    slots: Seq<SpecSlot>,
    strictness: Strictness,
)
    ensures
        template_outcome(pattern, slots, strictness) matches Ok((done, pieces)) ==> {
            &&& parse(pattern) == Ok::<Seq<SpecPiece>, SpecTemplateError>(pieces)
            &&& slots_validated(slots, done, strictness)
        },
{
    lemma_slots_outcome_shape(slots, strictness, slots.len());
    if let Ok((done, pieces)) = template_outcome(pattern, slots, strictness) {
        assert(slots_outcome(slots, strictness, slots.len()) == Ok::<Seq<SpecSlot>, SpecTemplateError>(done));
        assert forall|i: int| 0 <= i < slots.len() implies #[trigger] done[i].0 == slots[i].0 && validated(
            slots[i].1,
            done[i].1,
            strictness,
        ) by {
            assert(done[i].0 == slots[i].0);
            lemma_list_outcome_validated(slots[i].0, slots[i].1, strictness);
        }
    }
}

proof fn lemma_slots_outcome_error(slots: Seq<SpecSlot>, strictness: Strictness, n: nat)
    requires
        n <= slots.len(),
    ensures
        slots_outcome(slots, strictness, n) matches Err(e) ==> exists|j: int|
            0 <= j < n && #[trigger] slots_outcome(slots, strictness, j as nat) is Ok && {
                let done = slots_outcome(slots, strictness, j as nat)->Ok_0;
                ||| slot_names(done).contains(slots[j].0) && e
                    == SpecTemplateError::DuplicateSlot { name: slots[j].0 }
                ||| !slot_names(done).contains(slots[j].0) && list_outcome(
                    slots[j].0,
                    slots[j].1,
                    strictness,
                ) is Err && e == SpecTemplateError::List(
                    list_outcome(slots[j].0, slots[j].1, strictness)->Err_0,
                )
            },
    decreases n,
{
    if n > 0 {
        lemma_slots_outcome_error(slots, strictness, (n - 1) as nat);
    }
}

proof fn lemma_first_unknown(pieces: Seq<SpecPiece>, names: Seq<Seq<char>>, i: int)
    requires
        0 <= i <= pieces.len(),
    ensures
        first_unknown_from(pieces, names, i) matches Some(name) ==> !names.contains(name) && exists|k: int|
            i <= k < pieces.len() && #[trigger] pieces[k] == SpecPiece::Slot(name),
    decreases pieces.len() - i,
{
    if i < pieces.len() {
        lemma_first_unknown(pieces, names, i + 1);
    }
}

/// The slots before index `j` are accepted: distinct names, and each list
/// accepted by validation.
pub open spec fn slots_accepted_before(slots: Seq<SpecSlot>, strictness: Strictness, j: int) -> bool {
    &&& forall|k: int| 0 <= k < j ==> #[trigger] list_outcome(slots[k].0, slots[k].1, strictness) is Ok
    &&& forall|k1: int, k2: int| 0 <= k1 < k2 < j ==> #[trigger] slots[k1].0 != #[trigger] slots[k2].0
}

proof fn lemma_slots_accepted_prefix(slots: Seq<SpecSlot>, strictness: Strictness, j: nat)
    requires
        j <= slots.len(),
        slots_outcome(slots, strictness, j) is Ok,
    ensures
        slots_accepted_before(slots, strictness, j as int),
        slot_names(slots_outcome(slots, strictness, j)->Ok_0) == slot_names(slots.take(j as int)),
{
    lemma_slots_outcome_shape(slots, strictness, j);
    lemma_slots_outcome_wf(slots, strictness, j);
    let done = slots_outcome(slots, strictness, j)->Ok_0;
    assert forall|k1: int, k2: int| 0 <= k1 < k2 < j implies #[trigger] slots[k1].0 != #[trigger] slots[k2].0 by {
        assert(done[k1].0 == slots[k1].0);
        assert(done[k2].0 == slots[k2].0);
    }
    assert forall|k: int| 0 <= k < j implies #[trigger] list_outcome(slots[k].0, slots[k].1, strictness) is Ok by {
        assert(done[k].0 == slots[k].0);
    }
    assert(slot_names(done) =~= slot_names(slots.take(j as int))) by {
        assert forall|k: int| 0 <= k < j implies slot_names(done)[k] == slot_names(slots.take(j as int))[k] by {
            assert(done[k].0 == slots[k].0);
        }
    }
}

/// Why a template is refused: an empty pattern exactly when the pattern is
/// empty; a pattern defect as parsing reports it; a slot name that an
/// earlier slot already has; a slot whose list validation refuses, after
/// only accepted slots; or a slot in the pattern with no list, after every
/// slot was accepted.
pub proof fn lemma_template_error(pattern: Seq<char>, slots: Seq<SpecSlot>, strictness: Strictness)
    ensures
        template_outcome(pattern, slots, strictness) matches Err(e) ==> match e {
            SpecTemplateError::EmptyPattern => pattern.len() == 0,
            SpecTemplateError::UnterminatedPlaceholder { .. } => pattern.len() > 0 && parse(pattern)
                == Err::<Seq<SpecPiece>, SpecTemplateError>(e),
            SpecTemplateError::UnmatchedClosingBrace { .. } => pattern.len() > 0 && parse(pattern)
                == Err::<Seq<SpecPiece>, SpecTemplateError>(e),
            SpecTemplateError::EmptyPlaceholder { .. } => pattern.len() > 0 && parse(pattern)
                == Err::<Seq<SpecPiece>, SpecTemplateError>(e),
            SpecTemplateError::DuplicateSlot { name } => pattern.len() > 0 && parse(pattern) is Ok
                && exists|i: int, j: int|
                0 <= i < j < slots.len() && #[trigger] slots[i].0 == name && #[trigger] slots[j].0
                    == name && slots_accepted_before(slots, strictness, j),
            SpecTemplateError::List(err) => pattern.len() > 0 && parse(pattern) is Ok && exists|j: int|
                0 <= j < slots.len() && #[trigger] list_outcome(slots[j].0, slots[j].1, strictness)
                    == Err::<Seq<Seq<char>>, SpecBuildError>(err) && slots_accepted_before(
                    slots,
                    strictness,
                    j,
                ) && forall|k: int| 0 <= k < j ==> #[trigger] slots[k].0 != slots[j].0,
            SpecTemplateError::UnknownSlot { name } => {
                &&& pattern.len() > 0
                &&& parse(pattern) is Ok
                &&& exists|k: int|
                    0 <= k < parse(pattern)->Ok_0.len() && #[trigger] parse(pattern)->Ok_0[k]
                        == SpecPiece::Slot(name)
                &&& forall|i: int| 0 <= i < slots.len() ==> #[trigger] slots[i].0 != name
                &&& slots_accepted_before(slots, strictness, slots.len() as int)
            },
        },
{
    lemma_parse_error_leftmost(pattern);
    lemma_slots_outcome_error(slots, strictness, slots.len());
    if let Err(e) = template_outcome(pattern, slots, strictness) {
        if pattern.len() > 0 {
            if let Ok(pieces) = parse(pattern) {
                lemma_slots_outcome_error(slots, strictness, slots.len());
                match slots_outcome(slots, strictness, slots.len()) {
                    Err(e2) => {
                        assert(e == e2);
                        let j = choose|j: int|
                            0 <= j < slots.len() && #[trigger] slots_outcome(slots, strictness, j as nat) is Ok && {
                                let done = slots_outcome(slots, strictness, j as nat)->Ok_0;
                                ||| slot_names(done).contains(slots[j].0) && e
                                    == SpecTemplateError::DuplicateSlot { name: slots[j].0 }
                                ||| !slot_names(done).contains(slots[j].0) && list_outcome(
                                    slots[j].0,
                                    slots[j].1,
                                    strictness,
                                ) is Err && e == SpecTemplateError::List(
                                    list_outcome(slots[j].0, slots[j].1, strictness)->Err_0,
                                )
                            };
                        lemma_slots_accepted_prefix(slots, strictness, j as nat);
                        let done = slots_outcome(slots, strictness, j as nat)->Ok_0;
                        let names = slot_names(slots.take(j));
                        if names.contains(slots[j].0) {
                            let i = choose|i: int| 0 <= i < names.len() && names[i] == slots[j].0;
                            assert(slots[i].0 == names[i]);
                        } else {
                            assert forall|k: int| 0 <= k < j implies #[trigger] slots[k].0 != slots[j].0 by {
                                assert(names[k] == slots[k].0);
                            }
                        }
                    },
                    Ok(done) => {
                        lemma_slots_accepted_prefix(slots, strictness, slots.len());
                        assert(slots.take(slots.len() as int) =~= slots);
                        lemma_first_unknown(pieces, slot_names(done), 0);
                        if let Some(name) = first_unknown_from(pieces, slot_names(done), 0) {
                            assert forall|i: int| 0 <= i < slots.len() implies #[trigger] slots[i].0 != name by {
                                assert(slot_names(slots)[i] == slots[i].0);
                            }
                        }
                    },
                }
            }
        }
    }
}

} // verus!
