//! Encoding of messages into lines and literals.
use vstd::prelude::*;

use crate::ascii;

verus! {

/// Whether the receiver has to ask for a literal before it is sent.
#[derive(Clone, Copy, Debug, PartialEq, Eq, Hash, Structural)]
pub enum LiteralMode {
    Sync,
    NonSync,
}

impl DeepView for LiteralMode {
    type V = LiteralMode;

    open spec fn deep_view(&self) -> LiteralMode {
        *self
    }
}

/// What goes over the wire: bytes of a line, and literals as a whole.
pub enum Token {
    Byte(u8),
    Literal(Seq<u8>, LiteralMode),
}

/// Bytes of a line.
pub open spec fn plain(b: Seq<u8>) -> Seq<Token> {
    b.map_values(|x: u8| Token::Byte(x))
}

pub open spec fn word(s: &str) -> Seq<Token> {
    plain(ascii::bytes_of(s))
}

/// The bytes of one token.
pub open spec fn token_bytes(t: Token) -> Seq<u8> {
    match t {
        Token::Byte(b) => seq![b],
        Token::Literal(data, _) => data,
    }
}

/// The bytes that a sequence of tokens puts on the wire.
pub open spec fn flat(tokens: Seq<Token>) -> Seq<u8>
    decreases tokens.len(),
{
    if tokens.len() == 0 {
        seq![]
    } else {
        flat(tokens.drop_last()) + token_bytes(tokens.last())
    }
}

/// Each part with the separator in front of it.
pub open spec fn spread<A>(parts: Seq<Seq<A>>, sep: Seq<A>) -> Seq<A>
    decreases parts.len(),
{
    if parts.len() == 0 {
        seq![]
    } else {
        sep + parts[0] + spread(parts.skip(1), sep)
    }
}

/// The parts with the separator between them.
pub open spec fn joined<A>(parts: Seq<Seq<A>>, sep: Seq<A>) -> Seq<A> {
    if parts.len() == 0 {
        seq![]
    } else {
        parts[0] + spread(parts.skip(1), sep)
    }
}

/// The parts in parentheses, with spaces between them.
pub open spec fn paren_tokens(parts: Seq<Seq<Token>>) -> Seq<Token> {
    word("(") + joined(parts, word(" ")) + word(")")
}

// ---------------------------------------------------------------------- lemmas

pub broadcast proof fn lemma_flat_add(a: Seq<Token>, b: Seq<Token>)
    ensures
        #[trigger] flat(a + b) == flat(a) + flat(b),
    decreases b.len(),
{
    if b.len() == 0 {
        assert(a + b =~= a);
        assert(flat(a) + flat(b) =~= flat(a));
    } else {
        lemma_flat_add(a, b.drop_last());
        assert((a + b).drop_last() =~= a + b.drop_last());
        assert(flat(a + b) =~= flat(a) + flat(b));
    }
}

pub broadcast proof fn lemma_flat_plain(b: Seq<u8>)
    ensures
        #[trigger] flat(plain(b)) == b,
    decreases b.len(),
{
    if b.len() == 0 {
        assert(plain(b) =~= seq![]);
        assert(flat(plain(b)) =~= b);
    } else {
        lemma_flat_plain(b.drop_last());
        assert(plain(b).drop_last() =~= plain(b.drop_last()));
        assert(flat(plain(b)) =~= b);
    }
}

pub broadcast proof fn lemma_flat_word(s: &str)
    ensures
        #[trigger] flat(word(s)) == ascii::bytes_of(s),
{
    lemma_flat_plain(ascii::bytes_of(s));
}

pub broadcast proof fn lemma_flat_literal(data: Seq<u8>, mode: LiteralMode)
    ensures
        #[trigger] flat(seq![Token::Literal(data, mode)]) == data,
{
    let t = seq![Token::Literal(data, mode)];
    assert(t.drop_last() =~= seq![]);
    assert(flat(seq![]) =~= Seq::<u8>::empty());
    assert(flat(t) =~= data);
}

pub broadcast proof fn lemma_flat_empty()
    ensures
        #[trigger] flat(seq![]) == Seq::<u8>::empty(),
{
}

pub broadcast group group_flat {
    lemma_flat_add,
    lemma_flat_plain,
    lemma_flat_word,
    lemma_flat_literal,
    lemma_flat_empty,
}

pub broadcast proof fn lemma_concat_assoc<A>(a: Seq<A>, b: Seq<A>, c: Seq<A>)
    ensures
        #[trigger] ((a + b) + c) == a + (b + c),
{
    assert((a + b) + c =~= a + (b + c));
}

pub broadcast proof fn lemma_concat_empty<A>(a: Seq<A>)
    ensures
        #[trigger] (a + Seq::<A>::empty()) == a,
{
    assert(a + Seq::<A>::empty() =~= a);
}

pub broadcast proof fn lemma_empty_concat<A>(a: Seq<A>)
    ensures
        #[trigger] (Seq::<A>::empty() + a) == a,
{
    assert(Seq::<A>::empty() + a =~= a);
}

/// Concatenations in a normal form.
pub broadcast group group_concat {
    lemma_concat_assoc,
    lemma_concat_empty,
    lemma_empty_concat,
}

pub open spec fn flat_parts(parts: Seq<Seq<Token>>) -> Seq<Seq<u8>> {
    parts.map_values(|t: Seq<Token>| flat(t))
}

pub proof fn lemma_flat_spread(parts: Seq<Seq<Token>>, sep: Seq<Token>)
    ensures
        flat(spread(parts, sep)) == spread(flat_parts(parts), flat(sep)),
    decreases parts.len(),
{
    broadcast use group_flat;

    if parts.len() > 0 {
        lemma_flat_spread(parts.skip(1), sep);
        assert(flat_parts(parts).skip(1) =~= flat_parts(parts.skip(1)));
    }
}

pub proof fn lemma_flat_joined(parts: Seq<Seq<Token>>, sep: Seq<Token>)
    ensures
        flat(joined(parts, sep)) == joined(flat_parts(parts), flat(sep)),
{
    broadcast use group_flat;

    if parts.len() > 0 {
        lemma_flat_spread(parts.skip(1), sep);
        assert(flat_parts(parts).skip(1) =~= flat_parts(parts.skip(1)));
    }
}

/// The text of a list in parentheses.
pub proof fn lemma_flat_paren(parts: Seq<Seq<Token>>)
    ensures
        flat(paren_tokens(parts)) == ascii::bytes_of("(") + joined(
            flat_parts(parts),
            ascii::bytes_of(" "),
        ) + ascii::bytes_of(")"),
{
    broadcast use group_flat;

    lemma_flat_joined(parts, word(" "));
}

pub proof fn lemma_spread_push<A>(parts: Seq<Seq<A>>, x: Seq<A>, sep: Seq<A>)
    ensures
        spread(parts.push(x), sep) == spread(parts, sep) + sep + x,
    decreases parts.len(),
{
    if parts.len() == 0 {
        assert(parts.push(x).skip(1) =~= seq![]);
        assert(spread(parts.push(x).skip(1), sep) =~= seq![]);
        assert(spread(parts.push(x), sep) =~= spread(parts, sep) + sep + x);
    } else {
        lemma_spread_push(parts.skip(1), x, sep);
        assert(parts.push(x).skip(1) =~= parts.skip(1).push(x));
        assert(spread(parts.push(x), sep) =~= spread(parts, sep) + sep + x);
    }
}

pub proof fn lemma_joined_push<A>(parts: Seq<Seq<A>>, x: Seq<A>, sep: Seq<A>)
    ensures
        joined(parts.push(x), sep) == (if parts.len() == 0 {
            x
        } else {
            joined(parts, sep) + sep + x
        }),
{
    if parts.len() == 0 {
        assert(parts.push(x).skip(1) =~= seq![]);
        assert(joined(parts.push(x), sep) =~= x);
    } else {
        lemma_spread_push(parts.skip(1), x, sep);
        assert(parts.push(x).skip(1) =~= parts.skip(1).push(x));
        assert(joined(parts.push(x), sep) =~= joined(parts, sep) + sep + x);
    }
}

pub broadcast proof fn lemma_plain_add(a: Seq<u8>, b: Seq<u8>)
    ensures
        #[trigger] plain(a + b) == plain(a) + plain(b),
{
    assert(plain(a + b) =~= plain(a) + plain(b));
}

// ------------------------------------------------------------------- fragments

/// A part of an encoded message. Lines can be sent at once, a synchronizing
/// literal only after the receiver asked for it.
#[derive(Clone, Debug, PartialEq, Eq)]
pub enum Fragment {
    Line { data: Vec<u8> },
    Literal { data: Vec<u8>, mode: LiteralMode },
}

pub open spec fn fragment_tokens(f: Fragment) -> Seq<Token> {
    match f {
        Fragment::Line { data } => plain(data@),
        Fragment::Literal { data, mode } => seq![Token::Literal(data@, mode)],
    }
}

pub open spec fn fragments_tokens(f: Seq<Fragment>) -> Seq<Token>
    decreases f.len(),
{
    if f.len() == 0 {
        seq![]
    } else {
        fragments_tokens(f.drop_last()) + fragment_tokens(f.last())
    }
}

pub proof fn lemma_fragments_push(f: Seq<Fragment>, x: Fragment)
    ensures
        fragments_tokens(f.push(x)) == fragments_tokens(f) + fragment_tokens(x),
{
    assert(f.push(x).drop_last() =~= f);
}

/// An encoded message.
#[derive(Clone, Debug, PartialEq, Eq)]
pub struct Encoded {
    pub fragments: Vec<Fragment>,
}

impl View for Encoded {
    type V = Seq<Token>;

    open spec fn view(&self) -> Seq<Token> {
        fragments_tokens(self.fragments@)
    }
}

impl Encoded {
    /// The bytes of all fragments, one after the other.
    pub fn dump(&self) -> (r: Vec<u8>)
        ensures
            r@ == flat(self@),
    {
        let mut r: Vec<u8> = Vec::new();
        let mut i: usize = 0;
        proof {
            assert(self.fragments@.take(0) =~= seq![]);
        }
        while i < self.fragments.len()
            invariant
                i <= self.fragments@.len(),
                r@ == flat(fragments_tokens(self.fragments@.take(i as int))),
            decreases self.fragments@.len() - i,
        {
            proof {
                broadcast use group_flat;

                lemma_fragments_push(self.fragments@.take(i as int), self.fragments@[i as int]);
                assert(self.fragments@.take(i + 1) =~= self.fragments@.take(i as int).push(
                    self.fragments@[i as int],
                ));
            }
            match &self.fragments[i] {
                Fragment::Line { data } => r.extend_from_slice(data.as_slice()),
                Fragment::Literal { data, .. } => r.extend_from_slice(data.as_slice()),
            }
            i = i + 1;
        }
        assert(self.fragments@.take(i as int) =~= self.fragments@);
        r
    }
}

/// Collects an encoded message.
pub struct EncodeContext {
    accumulator: Vec<u8>,
    items: Vec<Fragment>,
}

impl View for EncodeContext {
    type V = Seq<Token>;

    closed spec fn view(&self) -> Seq<Token> {
        fragments_tokens(self.items@) + plain(self.accumulator@)
    }
}

impl EncodeContext {
    pub fn new() -> (r: Self)
        ensures
            r@ == Seq::<Token>::empty(),
    {
        let r = EncodeContext { accumulator: Vec::new(), items: Vec::new() };
        assert(r@ =~= seq![]);
        r
    }

    pub fn write_bytes(&mut self, b: &[u8])
        ensures
            final(self)@ == old(self)@ + plain(b@),
    {
        self.accumulator.extend_from_slice(b);
        proof {
            lemma_plain_add(old(self).accumulator@, b@);
            assert(self@ =~= old(self)@ + plain(b@));
        }
    }

    /// Writes an ASCII text.
    pub fn write_text(&mut self, s: &str)
        ensures
            final(self)@ == old(self)@ + word(s),
    {
        let b: Vec<u8> = ascii::text_bytes(s);
        self.write_bytes(b.as_slice());
    }

    /// Ends the line and writes the data of a literal.
    pub fn write_literal(&mut self, data: &[u8], mode: LiteralMode)
        ensures
            final(self)@ == old(self)@ + seq![Token::Literal(data@, mode)],
    {
        let mut line: Vec<u8> = Vec::new();
        std::mem::swap(&mut line, &mut self.accumulator);
        let copy: Vec<u8> = vstd::slice::slice_to_vec(data);
        let line = Fragment::Line { data: line };
        let literal = Fragment::Literal { data: copy, mode };
        proof {
            lemma_fragments_push(self.items@, line);
            lemma_fragments_push(self.items@.push(line), literal);
        }
        self.items.push(line);
        self.items.push(literal);
        assert(self@ =~= old(self)@ + seq![Token::Literal(data@, mode)]);
    }

    /// The message as it was written.
    pub fn into_encoded(self) -> (r: Encoded)
        ensures
            r@ == self@,
    {
        let mut items = self.items;
        if self.accumulator.len() > 0 {
            let line = Fragment::Line { data: self.accumulator };
            proof {
                lemma_fragments_push(items@, line);
            }
            items.push(line);
        }
        let r = Encoded { fragments: items };
        assert(r@ =~= self@);
        r
    }
}

/// The tokens were written behind what was there before.
pub open spec fn wrote(before: Seq<Token>, after: Seq<Token>, tokens: Seq<Token>) -> bool {
    after == before + tokens
}

/// A value that can be written as part of a message.
pub trait EncodeIntoContext: DeepView {
    /// What is written for a value.
    spec fn tokens(v: Self::V) -> Seq<Token>;

    fn encode_ctx(&self, ctx: &mut EncodeContext)
        ensures
            final(ctx)@ == old(ctx)@ + Self::tokens(self.deep_view()),
    ;
}

/// What is written for each of the values.
pub open spec fn parts<T: EncodeIntoContext>(vals: Seq<T::V>) -> Seq<Seq<Token>> {
    vals.map_values(|v: T::V| T::tokens(v))
}

/// Writes the values with the text `sep` between them.
pub fn join_serializable<T: EncodeIntoContext>(items: &[T], sep: &str, ctx: &mut EncodeContext)
    ensures
        final(ctx)@ == old(ctx)@ + joined(parts::<T>(items.deep_view()), word(sep)),
{
    let mut i: usize = 0;
    let ghost all = parts::<T>(items.deep_view());
    assert(all.take(0) =~= seq![]);
    assert(ctx@ + joined(all.take(0), word(sep)) =~= ctx@);
    while i < items.len()
        invariant
            i <= items@.len(),
            all == parts::<T>(items.deep_view()),
            all.len() == items@.len(),
            ctx@ == old(ctx)@ + joined(all.take(i as int), word(sep)),
        decreases items@.len() - i,
    {
        proof {
            lemma_joined_push(all.take(i as int), all[i as int], word(sep));
            assert(all.take(i + 1) =~= all.take(i as int).push(all[i as int]));
            assert(items.deep_view()[i as int] == items@[i as int].deep_view());
        }
        if i > 0 {
            ctx.write_text(sep);
        }
        items[i].encode_ctx(ctx);
        proof {
            if i > 0 {
                assert(ctx@ =~= old(ctx)@ + (joined(all.take(i as int), word(sep)) + word(sep)
                    + all[i as int]));
            } else {
                assert(ctx@ =~= old(ctx)@ + all[0]);
            }
        }
        i = i + 1;
    }
    assert(all.take(i as int) =~= all);
}

/// Writes each of the values with the text `sep` in front of it.
pub fn write_spread<T: EncodeIntoContext>(items: &[T], sep: &str, ctx: &mut EncodeContext)
    ensures
        final(ctx)@ == old(ctx)@ + spread(parts::<T>(items.deep_view()), word(sep)),
{
    let mut i: usize = 0;
    let ghost all = parts::<T>(items.deep_view());
    assert(all.take(0) =~= seq![]);
    assert(ctx@ + spread(all.take(0), word(sep)) =~= ctx@);
    while i < items.len()
        invariant
            i <= items@.len(),
            all == parts::<T>(items.deep_view()),
            all.len() == items@.len(),
            ctx@ == old(ctx)@ + spread(all.take(i as int), word(sep)),
        decreases items@.len() - i,
    {
        proof {
            lemma_spread_push(all.take(i as int), all[i as int], word(sep));
            assert(all.take(i + 1) =~= all.take(i as int).push(all[i as int]));
            assert(items.deep_view()[i as int] == items@[i as int].deep_view());
        }
        ctx.write_text(sep);
        items[i].encode_ctx(ctx);
        assert(ctx@ =~= old(ctx)@ + (spread(all.take(i as int), word(sep)) + word(sep)
            + all[i as int]));
        i = i + 1;
    }
    assert(all.take(i as int) =~= all);
}

/// Writes the values in parentheses, with spaces between them.
pub fn write_parens<T: EncodeIntoContext>(items: &[T], ctx: &mut EncodeContext)
    ensures
        final(ctx)@ == old(ctx)@ + paren_tokens(parts::<T>(items.deep_view())),
{
    ctx.write_text("(");
    join_serializable(items, " ", ctx);
    ctx.write_text(")");
    assert(ctx@ =~= old(ctx)@ + paren_tokens(parts::<T>(items.deep_view())));
}

} // verus!
