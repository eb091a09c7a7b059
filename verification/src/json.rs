//! The story-definition text format: a JSON document with fixed keys in a
//! fixed order. `to_json` emits the canonical text of a story (no
//! inter-token whitespace, control characters escaped); `load` reads any
//! document of the grammar — whitespace between tokens and the standard
//! string escapes included — and checks the story's structural invariants.

use vstd::prelude::*;
use vstd::string::StrSliceExecFns;
use crate::story::{StoryMap, Link, Choice, LinkProbabilityPair, pair_like, choice_like, link_like, story_like};
use crate::validate::{ValidationError, validate, story_valid, lemma_like_stories_validate_alike};

verus! {

/// A malformed story document.
#[derive(Debug)]
pub enum ParseError {
    Malformed,
}

/// Why a document was refused: it does not parse, or the story it denotes
/// breaks a structural invariant.
#[derive(Debug)]
pub enum LoadError {
    Parse(ParseError),
    Validation(ValidationError),
}

/// The lowercase hexadecimal digit of a value below sixteen.
pub open spec fn hex_digit(n: int) -> char {
    if n == 0 { '0' } else if n == 1 { '1' } else if n == 2 { '2' } else if n == 3 { '3' }
    else if n == 4 { '4' } else if n == 5 { '5' } else if n == 6 { '6' } else if n == 7 { '7' }
    else if n == 8 { '8' } else if n == 9 { '9' } else if n == 10 { 'a' } else if n == 11 { 'b' }
    else if n == 12 { 'c' } else if n == 13 { 'd' } else if n == 14 { 'e' } else { 'f' }
}

/// The canonical escaped form of one character inside a quoted string:
/// quote and backslash carry a backslash, control characters stand as
/// `\u00..`, every other character stands as itself.
pub open spec fn esc_char(c: char) -> Seq<char> {
    if c == '"' {
        seq!['\\', '"']
    } else if c == '\\' {
        seq!['\\', '\\']
    } else if (c as int) < 32 {
        seq!['\\', 'u', '0', '0', hex_digit(c as int / 16), hex_digit(c as int % 16)]
    } else {
        seq![c]
    }
}

/// The canonical escaped form of a whole string body.
pub open spec fn esc(s: Seq<char>) -> Seq<char>
    decreases s.len(),
{
    if s.len() == 0 {
        Seq::empty()
    } else {
        esc_char(s[0]) + esc(s.drop_first())
    }
}

/// A quoted, canonically escaped string token.
pub open spec fn json_str(s: Seq<char>) -> Seq<char> {
    seq!['"'] + esc(s) + seq!['"']
}

proof fn lemma_esc_snoc(s: Seq<char>, c: char)
    ensures
        esc(s.push(c)) == esc(s) + esc_char(c),
    decreases s.len(),
{
    if s.len() == 0 {
        assert(s.push(c)[0] == c);
        assert(s.push(c).drop_first() =~= Seq::<char>::empty());
        assert(esc(Seq::<char>::empty()) == Seq::<char>::empty());
        assert(esc(s.push(c)) =~= esc(s) + esc_char(c));
    } else {
        assert(s.push(c).drop_first() =~= s.drop_first().push(c));
        lemma_esc_snoc(s.drop_first(), c);
        assert(esc(s.push(c)) =~= esc_char(s[0]) + (esc(s.drop_first()) + esc_char(c)));
        assert(esc_char(s[0]) + (esc(s.drop_first()) + esc_char(c)) =~= esc(s) + esc_char(c));
    }
}

/// Escaping distributes over concatenation.
proof fn lemma_esc_concat(a: Seq<char>, b: Seq<char>)
    ensures
        esc(a + b) == esc(a) + esc(b),
    decreases a.len(),
{
    if a.len() == 0 {
        assert(a + b =~= b);
        assert(esc(a) =~= Seq::<char>::empty());
        assert(esc(a + b) =~= esc(a) + esc(b));
    } else {
        assert((a + b)[0] == a[0]);
        assert((a + b).drop_first() =~= a.drop_first() + b);
        lemma_esc_concat(a.drop_first(), b);
        assert(esc(a + b) =~= esc_char(a[0]) + (esc(a.drop_first()) + esc(b)));
        assert(esc_char(a[0]) + (esc(a.drop_first()) + esc(b)) =~= esc(a) + esc(b));
    }
}

/// The escaped text splits at any character of the source.
proof fn lemma_esc_split_at(w: Seq<char>, k: int)
    requires
        0 <= k < w.len(),
    ensures
        esc(w) == esc(w.subrange(0, k)) + (esc_char(w[k]) + esc(w.subrange(k + 1, w.len() as int))),
{
    let tail = w.subrange(k, w.len() as int);
    assert(w =~= w.subrange(0, k) + tail);
    lemma_esc_concat(w.subrange(0, k), tail);
    assert(tail[0] == w[k]);
    assert(tail.drop_first() =~= w.subrange(k + 1, w.len() as int));
    assert(esc(tail) == esc_char(w[k]) + esc(w.subrange(k + 1, w.len() as int)));
    assert(esc(w.subrange(0, k)) + esc(tail) =~= esc(w.subrange(0, k)) + (esc_char(w[k]) + esc(
        w.subrange(k + 1, w.len() as int),
    )));
}

/// Appends the characters of `s` to `out`.
fn push_str_chars(out: &mut Vec<char>, s: &str)
    ensures
        final(out)@ == old(out)@ + s@,
{
    let n = s.unicode_len();
    for i in 0..n
        invariant
            n == s@.len(),
            out@ == old(out)@ + s@.subrange(0, i as int),
    {
        let c = s.get_char(i);
        out.push(c);
        proof {
            assert(s@.subrange(0, i + 1) =~= s@.subrange(0, i as int).push(s@[i as int]));
            assert(out@ =~= old(out)@ + s@.subrange(0, i + 1));
        }
    }
    proof {
        assert(s@.subrange(0, n as int) =~= s@);
    }
}

/// Emits the lowercase hexadecimal digit of a value below sixteen.
fn hex_char(n: u8) -> (c: char)
    requires
        n < 16,
    ensures
        c == hex_digit(n as int),
{
    if n == 0 { '0' } else if n == 1 { '1' } else if n == 2 { '2' } else if n == 3 { '3' }
    else if n == 4 { '4' } else if n == 5 { '5' } else if n == 6 { '6' } else if n == 7 { '7' }
    else if n == 8 { '8' } else if n == 9 { '9' } else if n == 10 { 'a' } else if n == 11 { 'b' }
    else if n == 12 { 'c' } else if n == 13 { 'd' } else if n == 14 { 'e' } else { 'f' }
}

/// Appends the quoted, canonically escaped token of `s` to `out`.
fn push_json_str(out: &mut Vec<char>, s: &String)
    ensures
        final(out)@ == old(out)@ + json_str(s@),
{
    out.push('"');
    let str_ref = s.as_str();
    let n = str_ref.unicode_len();
    for i in 0..n
        invariant
            n == s@.len(),
            str_ref@ == s@,
            out@ == old(out)@ + seq!['"'] + esc(s@.subrange(0, i as int)),
    {
        let c = str_ref.get_char(i);
        if c == '"' {
            out.push('\\');
            out.push('"');
        } else if c == '\\' {
            out.push('\\');
            out.push('\\');
        } else if (c as u32) < 32 {
            let code = c as u32;
            out.push('\\');
            out.push('u');
            out.push('0');
            out.push('0');
            out.push(hex_char((code / 16) as u8));
            out.push(hex_char((code % 16) as u8));
        } else {
            out.push(c);
        }
        proof {
            lemma_esc_snoc(s@.subrange(0, i as int), s@[i as int]);
            assert(s@.subrange(0, i + 1) =~= s@.subrange(0, i as int).push(s@[i as int]));
            assert(out@ =~= old(out)@ + seq!['"'] + esc(s@.subrange(0, i + 1)));
        }
    }
    out.push('"');
    proof {
        assert(s@.subrange(0, n as int) =~= s@);
        assert(out@ =~= old(out)@ + json_str(s@));
    }
}

/// The canonical text of one weighted option.
pub open spec fn json_pair(o: LinkProbabilityPair) -> Seq<char> {
    seq!['{'] + ("\"link\""@ + (seq![':'] + (json_str(o.link@) + (seq![','] + ("\"probability\""@
        + (seq![':'] + (json_str(o.probability@) + seq!['}'])))))))
}

/// The body of a bracketed list: the items joined by commas.
pub open spec fn json_list_body(items: Seq<Seq<char>>) -> Seq<char>
    decreases items.len(),
{
    if items.len() == 0 {
        Seq::empty()
    } else if items.len() == 1 {
        items[0]
    } else {
        items[0] + (seq![','] + json_list_body(items.drop_first()))
    }
}

/// A bracketed, comma-joined list.
pub open spec fn json_list(items: Seq<Seq<char>>) -> Seq<char> {
    seq!['['] + json_list_body(items) + seq![']']
}

/// The canonical text of one choice.
pub open spec fn json_choice(c: Choice) -> Seq<char> {
    seq!['{'] + ("\"description\""@ + (seq![':'] + (json_str(c.description@) + (seq![','] + (
    "\"options\""@ + (seq![':'] + (json_list(p_texts(c.options@)) + seq!['}'])))))))
}

/// The canonical texts of a sequence of options.
pub open spec fn p_texts(os: Seq<LinkProbabilityPair>) -> Seq<Seq<char>> {
    os.map_values(|o: LinkProbabilityPair| json_pair(o))
}

/// The canonical texts of a sequence of choices.
pub open spec fn c_texts(cs: Seq<Choice>) -> Seq<Seq<char>> {
    cs.map_values(|c: Choice| json_choice(c))
}

/// The canonical texts of a sequence of links.
pub open spec fn l_texts(ls: Seq<Link>) -> Seq<Seq<char>> {
    ls.map_values(|l: Link| json_link(l))
}

/// The canonical text of one link.
pub open spec fn json_link(l: Link) -> Seq<char> {
    seq!['{'] + ("\"id\""@ + (seq![':'] + (json_str(l.id@) + (seq![','] + ("\"description\""@ + (
    seq![':'] + (json_str(l.description@) + (seq![','] + ("\"choices\""@ + (seq![':'] + (
    json_list(c_texts(l.choices@)) + seq!['}'])))))))))))
}

/// The canonical text of a whole story.
pub open spec fn json_story(s: StoryMap) -> Seq<char> {
    seq!['{'] + ("\"id\""@ + (seq![':'] + (json_str(s.id@) + (seq![','] + ("\"name\""@ + (seq![
        ':',
    ] + (json_str(s.name@) + (seq![','] + ("\"description\""@ + (seq![':'] + (json_str(
        s.description@,
    ) + (seq![','] + ("\"init_link_id\""@ + (seq![':'] + (json_str(s.init_link_id@) + (seq![',']
        + ("\"links\""@ + (seq![':'] + (json_list(l_texts(s.links@)) + seq!['}'])))))))))))))))))))
}

/// Appending one item to a list body appends a comma and the item, unless
/// the list was empty.
proof fn lemma_list_body_snoc(items: Seq<Seq<char>>, x: Seq<char>)
    ensures
        items.len() == 0 ==> json_list_body(items.push(x)) == x,
        items.len() > 0 ==> json_list_body(items.push(x)) == json_list_body(items) + seq![',']
            + x,
    decreases items.len(),
{
    if items.len() == 0 {
        assert(items.push(x)[0] == x);
        assert(json_list_body(items.push(x)) == x);
    } else if items.len() == 1 {
        assert(items.push(x).drop_first() =~= items.drop_first().push(x));
        assert(items.drop_first().len() == 0);
        lemma_list_body_snoc(items.drop_first(), x);
        assert(json_list_body(items.push(x)) =~= json_list_body(items) + seq![','] + x);
    } else {
        assert(items.push(x).drop_first() =~= items.drop_first().push(x));
        lemma_list_body_snoc(items.drop_first(), x);
        assert(json_list_body(items.push(x)) =~= items[0] + (seq![','] + (json_list_body(
            items.drop_first(),
        ) + seq![','] + x)));
        assert(items[0] + (seq![','] + (json_list_body(items.drop_first()) + seq![','] + x))
            =~= json_list_body(items) + seq![','] + x);
    }
}

/// Appends the canonical text of one option to `out`.
fn push_pair(out: &mut Vec<char>, o: &LinkProbabilityPair)
    ensures
        final(out)@ == old(out)@ + json_pair(*o),
{
    out.push('{');
    push_str_chars(out, "\"link\"");
    out.push(':');
    push_json_str(out, &o.link);
    out.push(',');
    push_str_chars(out, "\"probability\"");
    out.push(':');
    push_json_str(out, &o.probability);
    out.push('}');
    proof {
        assert(out@ =~= old(out)@ + json_pair(*o));
    }
}

/// Appends the canonical text of one choice to `out`.
#[verifier::rlimit(100)]
fn push_choice(out: &mut Vec<char>, c: &Choice)
    ensures
        final(out)@ == old(out)@ + json_choice(*c),
{
    out.push('{');
    push_str_chars(out, "\"description\"");
    out.push(':');
    push_json_str(out, &c.description);
    out.push(',');
    push_str_chars(out, "\"options\"");
    out.push(':');
    out.push('[');
    let n = c.options.len();
    let ghost texts = p_texts(c.options@);
    let ghost head = old(out)@ + seq!['{'] + "\"description\""@ + seq![':'] + json_str(
        c.description@,
    ) + seq![','] + "\"options\""@ + seq![':'] + seq!['['];
    for i in 0..n
        invariant
            n == c.options@.len(),
            texts == p_texts(c.options@),
            head == old(out)@ + seq!['{'] + "\"description\""@ + seq![':'] + json_str(
                c.description@,
            ) + seq![','] + "\"options\""@ + seq![':'] + seq!['['],
            out@ == head + json_list_body(texts.subrange(0, i as int)),
    {
        if i > 0 {
            out.push(',');
        }
        push_pair(out, &c.options[i]);
        proof {
            lemma_list_body_snoc(texts.subrange(0, i as int), texts[i as int]);
            assert(texts.subrange(0, i + 1) =~= texts.subrange(0, i as int).push(
                texts[i as int],
            ));
            assert(texts[i as int] == json_pair(c.options@[i as int]));
            assert(out@ =~= head + json_list_body(texts.subrange(0, i + 1)));
        }
    }
    out.push(']');
    out.push('}');
    proof {
        assert(texts.subrange(0, n as int) =~= texts);
        assert(out@ =~= old(out)@ + json_choice(*c));
    }
}

/// Appends the canonical text of one link to `out`.
#[verifier::rlimit(100)]
fn push_link(out: &mut Vec<char>, l: &Link)
    ensures
        final(out)@ == old(out)@ + json_link(*l),
{
    out.push('{');
    push_str_chars(out, "\"id\"");
    out.push(':');
    push_json_str(out, &l.id);
    out.push(',');
    push_str_chars(out, "\"description\"");
    out.push(':');
    push_json_str(out, &l.description);
    out.push(',');
    push_str_chars(out, "\"choices\"");
    out.push(':');
    out.push('[');
    let n = l.choices.len();
    let ghost texts = c_texts(l.choices@);
    let ghost head = old(out)@ + seq!['{'] + "\"id\""@ + seq![':'] + json_str(l.id@) + seq![',']
        + "\"description\""@ + seq![':'] + json_str(l.description@) + seq![','] + "\"choices\""@
        + seq![':'] + seq!['['];
    for i in 0..n
        invariant
            n == l.choices@.len(),
            texts == c_texts(l.choices@),
            head == old(out)@ + seq!['{'] + "\"id\""@ + seq![':'] + json_str(l.id@) + seq![',']
                + "\"description\""@ + seq![':'] + json_str(l.description@) + seq![',']
                + "\"choices\""@ + seq![':'] + seq!['['],
            out@ == head + json_list_body(texts.subrange(0, i as int)),
    {
        if i > 0 {
            out.push(',');
        }
        push_choice(out, &l.choices[i]);
        proof {
            lemma_list_body_snoc(texts.subrange(0, i as int), texts[i as int]);
            assert(texts.subrange(0, i + 1) =~= texts.subrange(0, i as int).push(
                texts[i as int],
            ));
            assert(texts[i as int] == json_choice(l.choices@[i as int]));
            assert(out@ =~= head + json_list_body(texts.subrange(0, i + 1)));
        }
    }
    out.push(']');
    out.push('}');
    proof {
        assert(texts.subrange(0, n as int) =~= texts);
        assert(out@ =~= old(out)@ + json_link(*l));
    }
}

/// Relies on String's FromIterator impl over char: collecting yields exactly
/// the iterated characters, in order.
#[verifier::external_body]
fn chars_to_string(v: &Vec<char>) -> (s: String)
    ensures
        s@ == v@,
{
    v.iter().collect()
}

/// Serializes a story into its canonical document text.
#[verifier::rlimit(100)]
pub fn to_json(story: &StoryMap) -> (r: String)
    ensures
        r@ == json_story(*story),
{
    let mut out: Vec<char> = Vec::new();
    out.push('{');
    push_str_chars(&mut out, "\"id\"");
    out.push(':');
    push_json_str(&mut out, &story.id);
    out.push(',');
    push_str_chars(&mut out, "\"name\"");
    out.push(':');
    push_json_str(&mut out, &story.name);
    out.push(',');
    push_str_chars(&mut out, "\"description\"");
    out.push(':');
    push_json_str(&mut out, &story.description);
    out.push(',');
    push_str_chars(&mut out, "\"init_link_id\"");
    out.push(':');
    push_json_str(&mut out, &story.init_link_id);
    out.push(',');
    push_str_chars(&mut out, "\"links\"");
    out.push(':');
    out.push('[');
    let n = story.links.len();
    let ghost texts = l_texts(story.links@);
    let ghost head = seq!['{'] + "\"id\""@ + seq![':'] + json_str(story.id@) + seq![',']
        + "\"name\""@ + seq![':'] + json_str(story.name@) + seq![','] + "\"description\""@
        + seq![':'] + json_str(story.description@) + seq![','] + "\"init_link_id\""@ + seq![':']
        + json_str(story.init_link_id@) + seq![','] + "\"links\""@ + seq![':'] + seq!['['];
    for i in 0..n
        invariant
            n == story.links@.len(),
            texts == l_texts(story.links@),
            head == seq!['{'] + "\"id\""@ + seq![':'] + json_str(story.id@) + seq![',']
                + "\"name\""@ + seq![':'] + json_str(story.name@) + seq![',']
                + "\"description\""@ + seq![':'] + json_str(story.description@) + seq![',']
                + "\"init_link_id\""@ + seq![':'] + json_str(story.init_link_id@) + seq![',']
                + "\"links\""@ + seq![':'] + seq!['['],
            out@ == head + json_list_body(texts.subrange(0, i as int)),
    {
        if i > 0 {
            out.push(',');
        }
        push_link(&mut out, &story.links[i]);
        proof {
            lemma_list_body_snoc(texts.subrange(0, i as int), texts[i as int]);
            assert(texts.subrange(0, i + 1) =~= texts.subrange(0, i as int).push(
                texts[i as int],
            ));
            assert(texts[i as int] == json_link(story.links@[i as int]));
            assert(out@ =~= head + json_list_body(texts.subrange(0, i + 1)));
        }
    }
    out.push(']');
    out.push('}');
    proof {
        assert(texts.subrange(0, n as int) =~= texts);
        assert(out@ =~= head + json_list_body(texts) + seq![']'] + seq!['}']);
        lemma_story_text_assemble(out@, head, *story);
    }
    chars_to_string(&out)
}

#[verifier::rlimit(100)]
#[verifier::spinoff_prover]
proof fn lemma_story_text_assemble(w: Seq<char>, head: Seq<char>, s: StoryMap)
    requires
        head == seq!['{'] + "\"id\""@ + seq![':'] + json_str(s.id@) + seq![','] + "\"name\""@
            + seq![':'] + json_str(s.name@) + seq![','] + "\"description\""@ + seq![':']
            + json_str(s.description@) + seq![','] + "\"init_link_id\""@ + seq![':'] + json_str(
            s.init_link_id@,
        ) + seq![','] + "\"links\""@ + seq![':'] + seq!['['],
        w == head + json_list_body(l_texts(s.links@)) + seq![']'] + seq!['}'],
    ensures
        w == json_story(s),
{
    assert(w =~= json_story(s));
}

/// Whether `lit` stands in `t` at position `pos`.
pub open spec fn lit_at(t: Seq<char>, pos: int, lit: Seq<char>) -> bool {
    &&& 0 <= pos
    &&& pos + lit.len() <= t.len()
    &&& t.subrange(pos, pos + lit.len()) == lit
}

proof fn lemma_lit_at_index(t: Seq<char>, pos: int, lit: Seq<char>, x: int)
    requires
        lit_at(t, pos, lit),
        0 <= x < lit.len(),
    ensures
        t[pos + x] == lit[x],
{
    assert(t.subrange(pos, pos + lit.len())[x] == lit[x]);
}

proof fn lemma_lit_at_split(t: Seq<char>, pos: int, a: Seq<char>, b: Seq<char>)
    requires
        lit_at(t, pos, a + b),
    ensures
        lit_at(t, pos, a),
        lit_at(t, pos + a.len(), b),
{
    assert forall|x: int| 0 <= x < a.len() implies t.subrange(pos, pos + a.len())[x] == a[x] by {
        lemma_lit_at_index(t, pos, a + b, x);
        assert((a + b)[x] == a[x]);
    }
    assert(t.subrange(pos, pos + a.len()) =~= a);
    assert forall|x: int| 0 <= x < b.len() implies t.subrange(
        pos + a.len(),
        pos + a.len() + b.len(),
    )[x] == b[x] by {
        lemma_lit_at_index(t, pos, a + b, a.len() + x);
        assert((a + b)[a.len() + x] == b[x]);
    }
    assert(t.subrange(pos + a.len(), pos + a.len() + b.len()) =~= b);
}

/// Whether `c` is JSON inter-token whitespace.
pub open spec fn is_ws(c: char) -> bool {
    c == ' ' || c == '\n' || c == '\r' || c == '\t'
}

fn is_ws_char(c: char) -> (b: bool)
    ensures
        b == is_ws(c),
{
    c == ' ' || c == '\n' || c == '\r' || c == '\t'
}

/// Whether `t` holds inter-token whitespace alone.
pub open spec fn ws_only(t: Seq<char>) -> bool {
    forall|i: int| 0 <= i < t.len() ==> is_ws(#[trigger] t[i])
}

/// Skips inter-token whitespace.
fn skip_ws(inp: &Vec<char>, pos: usize) -> (p: usize)
    requires
        pos <= inp@.len(),
    ensures
        pos <= p <= inp@.len(),
        (pos < inp@.len() && !is_ws(inp@[pos as int])) ==> p == pos,
        pos == inp@.len() ==> p == pos,
        ws_only(inp@.subrange(pos as int, p as int)),
{
    let mut p = pos;
    while p < inp.len() && is_ws_char(inp[p])
        invariant
            pos <= p <= inp@.len(),
            p != pos ==> pos < inp@.len() && is_ws(inp@[pos as int]),
            forall|x: int| pos <= x < p ==> is_ws(#[trigger] inp@[x]),
        decreases inp@.len() - p,
    {
        p = p + 1;
    }
    proof {
        assert forall|i: int| 0 <= i < inp@.subrange(pos as int, p as int).len() implies is_ws(
            #[trigger] inp@.subrange(pos as int, p as int)[i],
        ) by {
            assert(inp@.subrange(pos as int, p as int)[i] == inp@[pos + i]);
        }
    }
    p
}

/// Consumes one expected token character.
fn expect_tok(inp: &Vec<char>, pos: usize, t: char) -> (r: Option<usize>)
    ensures
        r matches Some(j) ==> j == pos + 1 && pos < inp@.len() && inp@[pos as int] == t,
        (pos < inp@.len() && inp@[pos as int] == t) ==> r is Some,
{
    if pos < inp.len() && inp[pos] == t {
        Some(pos + 1)
    } else {
        None
    }
}

/// Consumes the exact characters of `lit` at `pos`, exactly when they stand
/// there.
fn expect_lit(inp: &Vec<char>, pos: usize, lit: &str) -> (r: Option<usize>)
    ensures
        r matches Some(j) ==> j == pos + lit@.len() && lit_at(inp@, pos as int, lit@),
        lit_at(inp@, pos as int, lit@) ==> r is Some,
{
    let n = lit.unicode_len();
    let len = inp.len();
    if pos > len || n > len - pos {
        return None;
    }
    for k in 0..n
        invariant
            len == inp@.len(),
            pos + n <= len,
            n == lit@.len(),
            forall|m: int| 0 <= m < k ==> inp@[pos + m] == lit@[m],
    {
        if inp[pos + k] != lit.get_char(k) {
            proof {
                if lit_at(inp@, pos as int, lit@) {
                    lemma_lit_at_index(inp@, pos as int, lit@, k as int);
                }
            }
            return None;
        }
    }
    proof {
        assert(inp@.subrange(pos as int, (pos + n) as int) =~= lit@);
    }
    Some(pos + n)
}

proof fn lemma_esc_char_facts(c: char)
    ensures
        esc_char(c).len() == 1 || esc_char(c).len() == 2 || esc_char(c).len() == 6,
        esc_char(c)[0] != '"',
        esc_char(c).len() == 1 ==> esc_char(c)[0] == c && c != '"' && c != '\\' && (c as int)
            >= 32,
        esc_char(c).len() == 2 ==> esc_char(c)[0] == '\\' && esc_char(c)[1] == c && (c == '"'
            || c == '\\'),
        esc_char(c).len() == 6 ==> esc_char(c)[0] == '\\' && esc_char(c)[1] == 'u' && esc_char(
            c,
        )[2] == '0' && esc_char(c)[3] == '0' && esc_char(c)[4] == hex_digit(c as int / 16)
            && esc_char(c)[5] == hex_digit(c as int % 16) && 0 <= (c as int) < 32,
{
}

proof fn lemma_char_code_inj(c1: char, c2: char)
    requires
        c1 as u32 == c2 as u32,
    ensures
        c1 == c2,
{
}

/// The value of a hexadecimal digit character, upper or lower case;
/// negative for any other character.
pub open spec fn hexv(c: char) -> int {
    let u = c as int;
    if 48 <= u && u <= 57 {
        u - 48
    } else if 97 <= u && u <= 102 {
        u - 87
    } else if 65 <= u && u <= 70 {
        u - 55
    } else {
        -1
    }
}

proof fn lemma_hex_digit_inj(a: int, b: int)
    requires
        0 <= a < 16,
        0 <= b < 16,
        hex_digit(a) == hex_digit(b),
    ensures
        a == b,
{
}

/// Reads one hexadecimal digit, upper or lower case.
fn hex_val(c: char) -> (r: Option<u8>)
    ensures
        forall|n: int| 0 <= n < 16 && c == hex_digit(n) ==> r == Some(n as u8),
        r matches Some(v) ==> v < 16 && v as int == hexv(c),
{
    let u = c as u32;
    if 48 <= u && u <= 57 {
        Some((u - 48) as u8)
    } else if 97 <= u && u <= 102 {
        Some((u - 97 + 10) as u8)
    } else if 65 <= u && u <= 70 {
        Some((u - 65 + 10) as u8)
    } else {
        None
    }
}

/// Relies on char::from_u32: it returns Some exactly when the code is a
/// Unicode scalar value (not a surrogate and at most 0x10FFFF), and the
/// returned character carries the given code.
#[verifier::external_body]
fn char_from_code(code: u32) -> (r: Option<char>)
    ensures
        r matches Some(c) ==> c as u32 == code && c as int == code as int,
        (code < 0xD800 || (0xE000 <= code && code <= 0x10FFFF)) <==> r is Some,
{
    char::from_u32(code)
}

/// Collects the characters of `s` into a vector.
fn str_to_chars(s: &str) -> (v: Vec<char>)
    ensures
        v@ == s@,
{
    let n = s.unicode_len();
    let mut v: Vec<char> = Vec::new();
    for i in 0..n
        invariant
            n == s@.len(),
            v@ == s@.subrange(0, i as int),
    {
        v.push(s.get_char(i));
        proof {
            assert(s@.subrange(0, i + 1) =~= s@.subrange(0, i as int).push(s@[i as int]));
        }
    }
    proof {
        assert(s@.subrange(0, n as int) =~= s@);
    }
    v
}

/// One escaped-or-raw unit of a quoted string body, and the character it
/// stands for: a raw character, a named escape, a `\u` escape, or a
/// surrogate-pair escape.
pub open spec fn esc_unit(u: Seq<char>, c: char) -> bool {
    if u.len() == 1 {
        u[0] == c && c != '"' && c != '\\'
    } else if u.len() == 2 {
        u[0] == '\\' && ((u[1] == '"' && c == '"') || (u[1] == '\\' && c == '\\') || (u[1] == '/'
            && c == '/') || (u[1] == 'b' && c == '\u{8}') || (u[1] == 'f' && c == '\u{c}') || (
        u[1] == 'n' && c == '\n') || (u[1] == 'r' && c == '\r') || (u[1] == 't' && c == '\t'))
    } else if u.len() == 6 {
        u[0] == '\\' && u[1] == 'u' && hexv(u[2]) >= 0 && hexv(u[3]) >= 0 && hexv(u[4]) >= 0
            && hexv(u[5]) >= 0 && c as int == hexv(u[2]) * 4096 + hexv(u[3]) * 256 + hexv(u[4])
            * 16 + hexv(u[5])
    } else if u.len() == 12 {
        u[0] == '\\' && u[1] == 'u' && u[6] == '\\' && u[7] == 'u' && hexv(u[2]) >= 0 && hexv(
            u[3],
        ) >= 0 && hexv(u[4]) >= 0 && hexv(u[5]) >= 0 && hexv(u[8]) >= 0 && hexv(u[9]) >= 0
            && hexv(u[10]) >= 0 && hexv(u[11]) >= 0 && {
            let hi = hexv(u[2]) * 4096 + hexv(u[3]) * 256 + hexv(u[4]) * 16 + hexv(u[5]);
            let lo = hexv(u[8]) * 4096 + hexv(u[9]) * 256 + hexv(u[10]) * 16 + hexv(u[11]);
            &&& 0xD800 <= hi < 0xDC00
            &&& 0xDC00 <= lo < 0xE000
            &&& c as int == 0x10000 + (hi - 0xD800) * 0x400 + (lo - 0xDC00)
        }
    } else {
        false
    }
}

/// Whether the text `t` is a string body standing for the characters `s`,
/// unit by unit.
pub open spec fn str_body_text(t: Seq<char>, s: Seq<char>) -> bool
    decreases t.len(),
{
    if s.len() == 0 {
        t.len() == 0
    } else {
        exists|n: int|
            1 <= n <= t.len() && #[trigger] esc_unit(t.subrange(0, n), s[0]) && str_body_text(
                t.subrange(n, t.len() as int),
                s.drop_first(),
            )
    }
}

/// Whether the text `t` is a quoted string token standing for `s`.
pub open spec fn str_text(t: Seq<char>, s: Seq<char>) -> bool {
    &&& t.len() >= 2
    &&& t[0] == '"'
    &&& t[t.len() - 1] == '"'
    &&& str_body_text(t.subrange(1, t.len() - 1), s)
}

/// A string body extends by one unit at its end.
proof fn lemma_str_body_snoc(t: Seq<char>, s: Seq<char>, u: Seq<char>, c: char)
    requires
        str_body_text(t, s),
        esc_unit(u, c),
    ensures
        str_body_text(t + u, s.push(c)),
    decreases s.len(),
{
    let sp = s.push(c);
    if s.len() == 0 {
        assert(t + u =~= u);
        assert(sp[0] == c);
        assert(sp.drop_first() =~= Seq::<char>::empty());
        assert(1 <= u.len());
        assert(u.subrange(0, u.len() as int) =~= u);
        assert(u.subrange(u.len() as int, u.len() as int) =~= Seq::<char>::empty());
        assert(esc_unit(u.subrange(0, u.len() as int), sp[0]));
        assert(str_body_text(u.subrange(u.len() as int, u.len() as int), sp.drop_first()));
        assert(str_body_text(u, sp));
        assert(str_body_text(t + u, sp));
    } else {
        let n = choose|n: int|
            1 <= n <= t.len() && #[trigger] esc_unit(t.subrange(0, n), s[0]) && str_body_text(
                t.subrange(n, t.len() as int),
                s.drop_first(),
            );
        lemma_str_body_snoc(t.subrange(n, t.len() as int), s.drop_first(), u, c);
        assert(sp[0] == s[0]);
        assert(sp.drop_first() =~= s.drop_first().push(c));
        assert((t + u).subrange(0, n) =~= t.subrange(0, n));
        assert((t + u).subrange(n, (t + u).len() as int) =~= t.subrange(n, t.len() as int) + u);
        assert(esc_unit((t + u).subrange(0, n), sp[0]));
        assert(str_body_text((t + u).subrange(n, (t + u).len() as int), sp.drop_first()));
        assert(str_body_text(t + u, sp));
    }
}

/// Reads a quoted string token with the standard escapes; on the canonical
/// token of `w` it returns exactly `w` and consumes exactly the token.
#[verifier::rlimit(100)]
fn parse_string(inp: &Vec<char>, pos: usize, Ghost(w): Ghost<Seq<char>>) -> (r: Option<
    (String, usize),
>)
    ensures
        r matches Some((s, j)) ==> pos < j <= inp@.len() && str_text(
            inp@.subrange(pos as int, j as int),
            s@,
        ),
        lit_at(inp@, pos as int, json_str(w)) ==> (r matches Some((s, j)) && s@ == w && j == pos
            + json_str(w).len()),
{
    let ghost t = inp@;
    let ghost h = lit_at(t, pos as int, json_str(w));
    let len = inp.len();
    proof {
        if h {
            lemma_lit_at_index(t, pos as int, json_str(w), 0);
        }
    }
    if pos >= len || inp[pos] != '"' {
        return None;
    }
    let mut out: Vec<char> = Vec::new();
    let mut i: usize = pos + 1;
    proof {
        assert(t.subrange(pos as int + 1, pos as int + 1) =~= Seq::<char>::empty());
    }
    loop
        invariant
            pos < i <= len,
            len == inp@.len(),
            t == inp@,
            h == lit_at(t, pos as int, json_str(w)),
            inp@[pos as int] == '"',
            str_body_text(t.subrange(pos as int + 1, i as int), out@),
            h ==> out@.len() <= w.len() && out@ == w.subrange(0, out@.len() as int) && i == pos
                + 1 + esc(w.subrange(0, out@.len() as int)).len(),
        decreases len - i,
    {
        let ghost k = out@.len() as int;
        proof {
            if h {
                lemma_esc_concat(w.subrange(0, k), w.subrange(k, w.len() as int));
                assert(w =~= w.subrange(0, k) + w.subrange(k, w.len() as int));
                if k < w.len() {
                    lemma_esc_split_at(w, k);
                    lemma_esc_char_facts(w[k]);
                    assert forall|x: int| 0 <= x < esc_char(w[k]).len() implies t[i + x]
                        == esc_char(w[k])[x] by {
                        let off: int = 1 + esc(w.subrange(0, k)).len() as int + x;
                        lemma_lit_at_index(t, pos as int, json_str(w), off);
                        assert(json_str(w)[off] == esc(w)[off - 1]);
                        assert(esc(w)[off - 1] == esc_char(w[k])[x]);
                    }
                } else {
                    assert(w.subrange(0, k) =~= w);
                    let off: int = 1 + esc(w).len() as int;
                    lemma_lit_at_index(t, pos as int, json_str(w), off);
                    assert(json_str(w)[off] == '"');
                    assert(t[i as int] == '"');
                }
            }
        }
        if i >= len {
            proof {
                if h {
                    if k < w.len() {
                        assert(t[i as int] == esc_char(w[k])[0]);
                    }
                    assert(false);
                }
            }
            return None;
        }
        let c = inp[i];
        if c == '"' {
            proof {
                if h {
                    if k < w.len() {
                        assert(t[i as int] == esc_char(w[k])[0]);
                        assert(false);
                    }
                    assert(out@ =~= w);
                }
            }
            let s = chars_to_string(&out);
            proof {
                let t0 = t.subrange(pos as int, i + 1);
                assert(t0[0] == '"');
                assert(t0[t0.len() - 1] == t[i as int]);
                assert(t0.subrange(1, t0.len() - 1) =~= t.subrange(pos as int + 1, i as int));
                assert(str_text(t0, s@));
            }
            return Some((s, i + 1));
        } else if c == '\\' {
            if i + 1 >= len {
                proof {
                    if h {
                        assert(false);
                    }
                }
                return None;
            }
            let d = inp[i + 1];
            if d == '"' || d == '\\' || d == '/' {
                let ghost prev = out@;
                out.push(d);
                proof {
                    let u = t.subrange(i as int, i + 2);
                    assert(u =~= seq!['\\', d]);
                    assert(esc_unit(u, d));
                    lemma_str_body_snoc(t.subrange(pos as int + 1, i as int), prev, u, d);
                    assert(t.subrange(pos as int + 1, i + 2) =~= t.subrange(
                        pos as int + 1,
                        i as int,
                    ) + u);
                    assert(out@ =~= prev.push(d));
                    if h {
                        assert(t[i + 1] == esc_char(w[k])[1]);
                        assert(w[k] == d);
                        assert(out@ =~= w.subrange(0, k + 1));
                        lemma_esc_snoc(w.subrange(0, k), w[k]);
                        assert(w.subrange(0, k + 1) =~= w.subrange(0, k).push(w[k]));
                    }
                }
                i = i + 2;
            } else if d == 'b' || d == 'f' || d == 'n' || d == 'r' || d == 't' {
                proof {
                    if h {
                        assert(t[i + 1] == esc_char(w[k])[1]);
                        assert(false);
                    }
                }
                let e = if d == 'b' {
                    '\u{8}'
                } else if d == 'f' {
                    '\u{c}'
                } else if d == 'n' {
                    '\n'
                } else if d == 'r' {
                    '\r'
                } else {
                    '\t'
                };
                let ghost prev = out@;
                out.push(e);
                proof {
                    let u = t.subrange(i as int, i + 2);
                    assert(u =~= seq!['\\', d]);
                    assert(esc_unit(u, e));
                    lemma_str_body_snoc(t.subrange(pos as int + 1, i as int), prev, u, e);
                    assert(t.subrange(pos as int + 1, i + 2) =~= t.subrange(
                        pos as int + 1,
                        i as int,
                    ) + u);
                    assert(out@ =~= prev.push(e));
                }
                i = i + 2;
            } else if d == 'u' {
                proof {
                    if h {
                        assert(t[i + 1] == esc_char(w[k])[1]);
                        assert(esc_char(w[k]).len() == 6);
                    }
                }
                if len - i <= 5 {
                    proof {
                        if h {
                            assert(false);
                        }
                    }
                    return None;
                }
                let v1 = match hex_val(inp[i + 2]) {
                    Some(v) => v,
                    None => {
                        proof {
                            if h {
                                assert(t[i + 2] == '0');
                                assert('0' == hex_digit(0));
                                assert(false);
                            }
                        }
                        return None;
                    },
                };
                let v2 = match hex_val(inp[i + 3]) {
                    Some(v) => v,
                    None => {
                        proof {
                            if h {
                                assert(t[i + 3] == '0');
                                assert('0' == hex_digit(0));
                                assert(false);
                            }
                        }
                        return None;
                    },
                };
                let v3 = match hex_val(inp[i + 4]) {
                    Some(v) => v,
                    None => {
                        proof {
                            if h {
                                assert(t[i + 4] == hex_digit(w[k] as int / 16));
                                assert(0 <= w[k] as int / 16 && w[k] as int / 16 < 16);
                                assert(false);
                            }
                        }
                        return None;
                    },
                };
                let v4 = match hex_val(inp[i + 5]) {
                    Some(v) => v,
                    None => {
                        proof {
                            if h {
                                assert(t[i + 5] == hex_digit(w[k] as int % 16));
                                assert(0 <= w[k] as int % 16 && w[k] as int % 16 < 16);
                                assert(false);
                            }
                        }
                        return None;
                    },
                };
                let code: u32 = (v1 as u32) * 4096 + (v2 as u32) * 256 + (v3 as u32) * 16
                    + (v4 as u32);
                if 0xD800 <= code && code < 0xDC00 {
                    proof {
                        if h {
                            assert(t[i + 2] == '0' && t[i + 3] == '0');
                            assert('0' == hex_digit(0));
                            assert(v1 == 0 && v2 == 0);
                            assert(false);
                        }
                    }
                    if len - i <= 11 {
                        return None;
                    }
                    if inp[i + 6] != '\\' || inp[i + 7] != 'u' {
                        return None;
                    }
                    let u1 = match hex_val(inp[i + 8]) {
                        Some(v) => v,
                        None => {
                            return None;
                        },
                    };
                    let u2 = match hex_val(inp[i + 9]) {
                        Some(v) => v,
                        None => {
                            return None;
                        },
                    };
                    let u3 = match hex_val(inp[i + 10]) {
                        Some(v) => v,
                        None => {
                            return None;
                        },
                    };
                    let u4 = match hex_val(inp[i + 11]) {
                        Some(v) => v,
                        None => {
                            return None;
                        },
                    };
                    let code2: u32 = (u1 as u32) * 4096 + (u2 as u32) * 256 + (u3 as u32) * 16
                        + (u4 as u32);
                    if !(0xDC00 <= code2 && code2 < 0xE000) {
                        return None;
                    }
                    let full: u32 = 0x10000 + (code - 0xD800) * 0x400 + (code2 - 0xDC00);
                    let e = match char_from_code(full) {
                        Some(e) => e,
                        None => {
                            return None;
                        },
                    };
                    let ghost prevp = out@;
                    out.push(e);
                    proof {
                        let u = t.subrange(i as int, i + 12);
                        assert(u =~= seq!['\\', 'u', t[i + 2], t[i + 3], t[i + 4], t[i + 5],
                            '\\', 'u', t[i + 8], t[i + 9], t[i + 10], t[i + 11]]);
                        assert(u.len() == 12 && u[0] == '\\' && u[1] == 'u' && u[6] == '\\'
                            && u[7] == 'u');
                        assert(hexv(u[2]) == v1 as int && hexv(u[3]) == v2 as int && hexv(u[4])
                            == v3 as int && hexv(u[5]) == v4 as int);
                        assert(hexv(u[8]) == u1 as int && hexv(u[9]) == u2 as int && hexv(
                            u[10],
                        ) == u3 as int && hexv(u[11]) == u4 as int);
                        assert(e as int == full as int);
                        assert(esc_unit(u, e));
                        lemma_str_body_snoc(t.subrange(pos as int + 1, i as int), prevp, u, e);
                        assert(t.subrange(pos as int + 1, i + 12) =~= t.subrange(
                            pos as int + 1,
                            i as int,
                        ) + u);
                        assert(out@ =~= prevp.push(e));
                    }
                    i = i + 12;
                } else {
                proof {
                    if h {
                        assert(t[i + 2] == '0' && t[i + 3] == '0');
                        assert('0' == hex_digit(0));
                        assert(v1 == 0 && v2 == 0);
                        assert(t[i + 4] == hex_digit(w[k] as int / 16));
                        assert(t[i + 5] == hex_digit(w[k] as int % 16));
                        assert(0 <= w[k] as int / 16 && w[k] as int / 16 < 16);
                        assert(0 <= w[k] as int % 16 && w[k] as int % 16 < 16);
                        assert(v3 as int == w[k] as int / 16);
                        assert(v4 as int == w[k] as int % 16);
                        assert(code == w[k] as u32);
                        assert(code < 0xD800);
                    }
                }
                let e = match char_from_code(code) {
                    Some(e) => e,
                    None => {
                        proof {
                            if h {
                                assert(false);
                            }
                        }
                        return None;
                    },
                };
                let ghost prev = out@;
                let ghost prev6 = out@;
                out.push(e);
                proof {
                    let u = t.subrange(i as int, i + 6);
                    assert(u =~= seq!['\\', 'u', t[i + 2], t[i + 3], t[i + 4], t[i + 5]]);
                    assert(u.len() == 6 && u[0] == '\\' && u[1] == 'u');
                    assert(hexv(u[2]) == v1 as int && hexv(u[3]) == v2 as int && hexv(u[4])
                        == v3 as int && hexv(u[5]) == v4 as int);
                    assert(e as int == code as int);
                    assert(esc_unit(u, e));
                    lemma_str_body_snoc(t.subrange(pos as int + 1, i as int), prev6, u, e);
                    assert(t.subrange(pos as int + 1, i + 6) =~= t.subrange(
                        pos as int + 1,
                        i as int,
                    ) + u);
                    assert(out@ =~= prev6.push(e));
                    if h {
                        assert(e as u32 == w[k] as u32);
                        lemma_char_code_inj(e, w[k]);
                        assert(out@ =~= w.subrange(0, k + 1));
                        lemma_esc_snoc(w.subrange(0, k), w[k]);
                        assert(w.subrange(0, k + 1) =~= w.subrange(0, k).push(w[k]));
                    }
                }
                i = i + 6;
                }
            } else {
                proof {
                    if h {
                        assert(t[i + 1] == esc_char(w[k])[1]);
                        assert(false);
                    }
                }
                return None;
            }
        } else {
            let ghost prev = out@;
            out.push(c);
            proof {
                let u = t.subrange(i as int, i + 1);
                assert(u =~= seq![c]);
                assert(esc_unit(u, c));
                lemma_str_body_snoc(t.subrange(pos as int + 1, i as int), prev, u, c);
                assert(t.subrange(pos as int + 1, i + 1) =~= t.subrange(pos as int + 1, i as int)
                    + u);
                assert(out@ =~= prev.push(c));
                if h {
                    assert(t[i as int] == esc_char(w[k])[0]);
                    assert(w[k] == c);
                    assert(out@ =~= w.subrange(0, k + 1));
                    lemma_esc_snoc(w.subrange(0, k), w[k]);
                    assert(w.subrange(0, k + 1) =~= w.subrange(0, k).push(w[k]));
                }
            }
            i = i + 1;
        }
    }
}

proof fn lemma_body_skip_step(texts: Seq<Seq<char>>, n: int)
    requires
        0 <= n < texts.len(),
    ensures
        texts.skip(n).len() == texts.len() - n,
        texts.skip(n)[0] == texts[n],
        n + 1 == texts.len() ==> json_list_body(texts.skip(n)) == texts[n],
        n + 1 < texts.len() ==> json_list_body(texts.skip(n)) == texts[n] + (seq![',']
            + json_list_body(texts.skip(n + 1))),
{
    assert(texts.skip(n)[0] == texts[n]);
    if n + 1 == texts.len() {
        assert(texts.skip(n).len() == 1);
    } else {
        assert(texts.skip(n).drop_first() =~= texts.skip(n + 1));
    }
}

/// The pieces of one weighted-option object: two field groups and the
/// whitespace around them.
pub open spec fn pair_parts(
    f1: Seq<char>,
    g1: Seq<char>,
    f2: Seq<char>,
    g2: Seq<char>,
    o: LinkProbabilityPair,
) -> bool {
    &&& field_text(f1, '{', "\"link\""@, o.link@)
    &&& ws_only(g1)
    &&& field_text(f2, ',', "\"probability\""@, o.probability@)
    &&& ws_only(g2)
}

/// Whether `t` is a weighted-option object standing for `o`.
pub open spec fn pair_text(t: Seq<char>, o: LinkProbabilityPair) -> bool {
    exists|f1: Seq<char>, g1: Seq<char>, f2: Seq<char>, g2: Seq<char>|
        #[trigger] pair_parts(f1, g1, f2, g2, o) && t == f1 + (g1 + (f2 + (g2 + seq!['}'])))
}

/// Reads one weighted option; every accepted text is a `pair_text` of the
/// result, and on the canonical text of `wo` it returns an option of the
/// same content and consumes exactly that text.
#[verifier::rlimit(100)]
fn parse_pair(inp: &Vec<char>, pos: usize, Ghost(wo): Ghost<LinkProbabilityPair>) -> (r: Option<
    (LinkProbabilityPair, usize),
>)
    ensures
        r matches Some((o, j)) ==> pos < j <= inp@.len() && pair_text(
            inp@.subrange(pos as int, j as int),
            o,
        ),
        lit_at(inp@, pos as int, json_pair(wo)) ==> (r matches Some((o, j)) && pair_like(o, wo)
            && j == pos + json_pair(wo).len()),
{
    let ghost t = inp@;
    let ghost h = lit_at(t, pos as int, json_pair(wo));
    let ghost r4 = seq![','] + ("\"probability\""@ + (seq![':'] + (json_str(wo.probability@)
        + seq!['}'])));
    let ghost r8: Seq<char> = seq!['}'];
    proof {
        if h {
            reveal_strlit("\"link\"");
            reveal_strlit("\"probability\"");
            assert(json_pair(wo) == seq!['{'] + ("\"link\""@ + (seq![':'] + (json_str(wo.link@)
                + r4))));
        }
    }
    let (link, p4) = match parse_field(inp, pos, '{', "\"link\"", Ghost(wo.link@), Ghost(r4)) {
        Some(x) => x,
        None => {
            return None;
        },
    };
    proof {
        if h {
            lemma_lit_at_index(t, p4 as int, r4, 0);
        }
    }
    let p4b = skip_ws(inp, p4);
    let (probability, p8) = match parse_field(
        inp,
        p4b,
        ',',
        "\"probability\"",
        Ghost(wo.probability@),
        Ghost(r8),
    ) {
        Some(x) => x,
        None => {
            return None;
        },
    };
    proof {
        if h {
            lemma_lit_at_index(t, p8 as int, r8, 0);
        }
    }
    let p8b = skip_ws(inp, p8);
    let p9 = match expect_tok(inp, p8b, '}') {
        Some(p) => p,
        None => {
            return None;
        },
    };
    let o = LinkProbabilityPair { link, probability };
    proof {
        let f1 = t.subrange(pos as int, p4 as int);
        let g1 = t.subrange(p4 as int, p4b as int);
        let f2 = t.subrange(p4b as int, p8 as int);
        let g2 = t.subrange(p8 as int, p8b as int);
        lemma_cat3(t, p8 as int, p8b as int, p9 as int);
        lemma_cat3(t, p4b as int, p8 as int, p9 as int);
        lemma_cat3(t, p4 as int, p4b as int, p9 as int);
        lemma_cat3(t, pos as int, p4 as int, p9 as int);
        assert(t.subrange(p8b as int, p9 as int) =~= seq!['}']);
        assert(pair_parts(f1, g1, f2, g2, o));
        assert(t.subrange(pos as int, p9 as int) == f1 + (g1 + (f2 + (g2 + seq!['}']))));
        assert(pair_text(t.subrange(pos as int, p9 as int), o));
    }
    Some((o, p9))
}

/// Marks the earlier-items text inside a list decomposition.
pub open spec fn items_rest(rest: Seq<char>) -> bool {
    true
}

/// The pieces of one option item: whitespace, the object, whitespace.
pub open spec fn opt_item_parts(
    w0: Seq<char>,
    tp: Seq<char>,
    w1: Seq<char>,
    o: LinkProbabilityPair,
) -> bool {
    ws_only(w0) && pair_text(tp, o) && ws_only(w1)
}

/// Whether `t` is the comma-joined items of a non-empty option list.
pub open spec fn options_items_text(t: Seq<char>, os: Seq<LinkProbabilityPair>) -> bool
    decreases os.len(),
{
    if os.len() == 0 {
        false
    } else if os.len() == 1 {
        exists|w0: Seq<char>, tp: Seq<char>, w1: Seq<char>|
            #[trigger] opt_item_parts(w0, tp, w1, os[0]) && t == w0 + (tp + w1)
    } else {
        exists|rest: Seq<char>, w0: Seq<char>, tp: Seq<char>, w1: Seq<char>|
            #![trigger opt_item_parts(w0, tp, w1, os.last()), items_rest(rest)]
            (options_items_text(rest, os.drop_last()) && opt_item_parts(w0, tp, w1, os.last())
                && t == rest + (seq![','] + (w0 + (tp + w1))))
    }
}

/// Whether `t` is a bracketed option list standing for `os`.
pub open spec fn options_text(t: Seq<char>, os: Seq<LinkProbabilityPair>) -> bool {
    if os.len() == 0 {
        exists|w: Seq<char>| #[trigger] ws_only(w) && t == seq!['['] + (w + seq![']'])
    } else {
        exists|body: Seq<char>|
            #[trigger] options_items_text(body, os) && t == seq!['['] + (body + seq![']'])
    }
}

/// One more option item, with its surrounding whitespace and joining
/// comma, extends the items text.
proof fn lemma_items_extend(
    t: Seq<char>,
    p1: int,
    i: int,
    i2: int,
    j: int,
    jb: int,
    prev: Seq<LinkProbabilityPair>,
    o: LinkProbabilityPair,
)
    requires
        0 <= p1 <= i <= i2 <= j <= jb <= t.len(),
        prev.len() == 0 ==> ws_only(t.subrange(p1, i)),
        prev.len() >= 1 ==> i >= p1 + 1 && t[i - 1] == ',' && options_items_text(
            t.subrange(p1, i - 1),
            prev,
        ),
        ws_only(t.subrange(i, i2)),
        pair_text(t.subrange(i2, j), o),
        ws_only(t.subrange(j, jb)),
    ensures
        options_items_text(t.subrange(p1, jb), prev.push(o)),
{
    let os = prev.push(o);
    let w0a = t.subrange(i, i2);
    let tp = t.subrange(i2, j);
    let w1 = t.subrange(j, jb);
    if prev.len() == 0 {
        let w0 = t.subrange(p1, i2);
        assert(w0 =~= t.subrange(p1, i) + w0a);
        assert forall|x: int| 0 <= x < w0.len() implies is_ws(#[trigger] w0[x]) by {
            if x < i - p1 {
                assert(w0[x] == t.subrange(p1, i)[x]);
            } else {
                assert(w0[x] == w0a[x - (i - p1)]);
            }
        }
        assert(os[0] == o);
        assert(opt_item_parts(w0, tp, w1, os[0]));
        assert(t.subrange(p1, jb) =~= w0 + (tp + w1));
        assert(options_items_text(t.subrange(p1, jb), os));
    } else {
        let rest = t.subrange(p1, i - 1);
        assert(os.last() == o);
        assert(os.drop_last() =~= prev);
        assert(options_items_text(rest, os.drop_last()));
        assert(opt_item_parts(w0a, tp, w1, os.last()));
        assert(items_rest(rest));
        assert(t.subrange(p1, jb) =~= rest + (seq![','] + (w0a + (tp + w1))));
        assert(os.len() > 1);
        assert(options_items_text(t.subrange(p1, jb), os));
    }
}

/// Reads a bracketed list of weighted options; on the canonical text of the
/// options `ws` it returns options of the same content and consumes exactly
/// that text.
#[verifier::rlimit(100)]
fn parse_options(inp: &Vec<char>, pos: usize, Ghost(ws): Ghost<Seq<LinkProbabilityPair>>) -> (r:
    Option<(Vec<LinkProbabilityPair>, usize)>)
    ensures
        r matches Some((v, j)) ==> pos < j <= inp@.len() && options_text(
            inp@.subrange(pos as int, j as int),
            v@,
        ),
        lit_at(inp@, pos as int, json_list(p_texts(ws))) ==> (r matches Some((v, j)) && v@.len()
            == ws.len() && (forall|x: int|
            0 <= x < ws.len() ==> pair_like(#[trigger] v@[x], ws[x])) && j == pos + json_list(
            p_texts(ws),
        ).len()),
{
    let ghost t = inp@;
    let ghost texts = p_texts(ws);
    let ghost h = lit_at(t, pos as int, json_list(texts));
    proof {
        if h {
            assert(seq!['['] + json_list_body(texts) + seq![']'] =~= seq!['['] + (
            json_list_body(texts) + seq![']']));
            lemma_lit_at_split(t, pos as int, seq!['['], json_list_body(texts) + seq![']']);
            lemma_lit_at_index(t, pos as int, seq!['['], 0);
        }
    }
    let p1 = match expect_tok(inp, pos, '[') {
        Some(p) => p,
        None => {
            return None;
        },
    };
    proof {
        if h {
            if texts.len() == 0 {
                assert(json_list_body(texts) + seq![']'] =~= seq![']']);
                lemma_lit_at_index(t, p1 as int, json_list_body(texts) + seq![']'], 0);
            } else {
                lemma_body_skip_step(texts, 0);
                assert(texts.skip(0) =~= texts);
                assert(texts[0] == json_pair(ws[0]));
                assert(json_pair(ws[0])[0] == '{');
                lemma_lit_at_index(t, p1 as int, json_list_body(texts) + seq![']'], 0);
                if texts.len() == 1 {
                    assert((json_list_body(texts) + seq![']'])[0] == texts[0][0]);
                } else {
                    assert((json_list_body(texts) + seq![']'])[0] == texts[0][0]);
                }
            }
        }
    }
    let s1 = skip_ws(inp, p1);
    if s1 < inp.len() && inp[s1] == ']' {
        proof {
            if h {
                assert(s1 == p1);
                if texts.len() > 0 {
                    assert(t[s1 as int] == '{');
                    assert(false);
                }
                assert(json_list_body(texts) =~= Seq::<char>::empty());
            }
        }
        proof {
            let wseg = t.subrange(p1 as int, s1 as int);
            lemma_cat3(t, p1 as int, s1 as int, s1 + 1);
            lemma_cat3(t, pos as int, p1 as int, s1 + 1);
            assert(t.subrange(pos as int, p1 as int) =~= seq!['[']);
            assert(t.subrange(s1 as int, s1 + 1) =~= seq![']']);
            assert(t.subrange(pos as int, s1 + 1) == seq!['['] + (wseg + seq![']']));
        }
        let v: Vec<LinkProbabilityPair> = Vec::new();
        return Some((v, s1 + 1));
    }
    let mut v: Vec<LinkProbabilityPair> = Vec::new();
    let mut i: usize = s1;
    proof {
        if h {
            assert(s1 == p1);
            if texts.len() == 0 {
                assert(t[p1 as int] == ']');
                assert(p1 < t.len());
                assert(false);
            }
            assert(texts.skip(0) =~= texts);
        }
    }
    loop
        invariant
            t == inp@,
            texts == p_texts(ws),
            pos < i <= inp@.len(),
            p1 == pos + 1,
            p1 <= i,
            t[pos as int] == '[',
            v@.len() == 0 ==> ws_only(t.subrange(p1 as int, i as int)),
            v@.len() >= 1 ==> i >= p1 + 1 && t[i - 1] == ',' && options_items_text(
                t.subrange(p1 as int, i as int - 1),
                v@,
            ),
            h == lit_at(t, pos as int, json_list(texts)),
            h ==> {
                &&& v@.len() < ws.len()
                &&& lit_at(
                    t,
                    i as int,
                    json_list_body(texts.skip(v@.len() as int)) + seq![']'],
                )
                &&& i + (json_list_body(texts.skip(v@.len() as int)) + seq![']']).len() == pos
                    + json_list(texts).len()
                &&& forall|x: int| 0 <= x < v@.len() ==> pair_like(#[trigger] v@[x], ws[x])
            },
        decreases inp@.len() - i,
    {
        let ghost n = v@.len() as int;
        proof {
            if h {
                lemma_body_skip_step(texts, n);
                assert(texts[n] == json_pair(ws[n]));
                assert(json_pair(ws[n])[0] == '{');
                assert(texts[n].len() > 0);
                lemma_lit_at_index(t, i as int, json_list_body(texts.skip(n)) + seq![']'], 0);
                assert((json_list_body(texts.skip(n)) + seq![']'])[0] == texts[n][0]);
                if n + 1 < texts.len() {
                    assert((texts[n] + (seq![','] + json_list_body(texts.skip(n + 1)))) + seq![
                        ']',
                    ] =~= texts[n] + ((seq![','] + json_list_body(texts.skip(n + 1))) + seq![
                        ']',
                    ]));
                    lemma_lit_at_split(
                        t,
                        i as int,
                        texts[n],
                        (seq![','] + json_list_body(texts.skip(n + 1))) + seq![']'],
                    );
                } else {
                    lemma_lit_at_split(t, i as int, texts[n], seq![']']);
                }
            }
        }
        let i2 = skip_ws(inp, i);
        proof {
            if h {
                assert(i2 == i);
            }
        }
        let (o, j) = match parse_pair(inp, i2, Ghost(ws[v@.len() as int])) {
            Some(x) => x,
            None => {
                return None;
            },
        };
        let ghost prev = v@;
        v.push(o);
        let jb = skip_ws(inp, j);
        proof {
            if h {
                if n + 1 < texts.len() {
                    assert((seq![','] + json_list_body(texts.skip(n + 1))) + seq![']'] =~= seq![
                        ',',
                    ] + (json_list_body(texts.skip(n + 1)) + seq![']']));
                    lemma_lit_at_split(
                        t,
                        j as int,
                        seq![','],
                        json_list_body(texts.skip(n + 1)) + seq![']'],
                    );
                    lemma_lit_at_index(t, j as int, seq![','], 0);
                } else {
                    lemma_lit_at_index(t, j as int, seq![']'], 0);
                }
                assert(jb == j);
            }
        }
        if jb >= inp.len() {
            proof {
                if h {
                    assert(false);
                }
            }
            return None;
        }
        let c = inp[jb];
        if c == ']' {
            proof {
                lemma_items_extend(t, p1 as int, i as int, i2 as int, j as int, jb as int, prev, o);
                lemma_cat3(t, p1 as int, jb as int, jb + 1);
                lemma_cat3(t, pos as int, p1 as int, jb + 1);
                assert(t.subrange(pos as int, p1 as int) =~= seq!['[']);
                assert(t.subrange(jb as int, jb + 1) =~= seq![']']);
                assert(t.subrange(pos as int, jb + 1) == seq!['['] + (t.subrange(
                    p1 as int,
                    jb as int,
                ) + seq![']']));
                assert(options_text(t.subrange(pos as int, jb + 1), v@));
                if h {
                    if n + 1 < texts.len() {
                        assert(t[jb as int] == ',');
                        assert(false);
                    }
                    assert(v@.len() == ws.len());
                    assert forall|x: int| 0 <= x < ws.len() implies pair_like(
                        #[trigger] v@[x],
                        ws[x],
                    ) by {
                        if x < n {
                            assert(pair_like(v@[x], ws[x]));
                        }
                    }
                }
            }
            return Some((v, jb + 1));
        } else if c == ',' {
            proof {
                lemma_items_extend(t, p1 as int, i as int, i2 as int, j as int, jb as int, prev, o);
                if h {
                    if n + 1 == texts.len() {
                        assert(t[jb as int] == ']');
                        assert(false);
                    }
                    assert forall|x: int| 0 <= x < v@.len() implies pair_like(
                        #[trigger] v@[x],
                        ws[x],
                    ) by {
                        if x < n {
                            assert(pair_like(v@[x], ws[x]));
                        }
                    }
                }
            }
            i = jb + 1;
        } else {
            proof {
                if h {
                    assert(false);
                }
            }
            return None;
        }
    }
}

/// Reads one choice; on the canonical text of `wc` it returns a choice of
/// the same content and consumes exactly that text.
#[verifier::rlimit(100)]
fn parse_choice(inp: &Vec<char>, pos: usize, Ghost(wc): Ghost<Choice>) -> (r: Option<
    (Choice, usize),
>)
    ensures
        r matches Some((c, j)) ==> pos < j <= inp@.len(),
        lit_at(inp@, pos as int, json_choice(wc)) ==> (r matches Some((c, j)) && choice_like(
            c,
            wc,
        ) && j == pos + json_choice(wc).len()),
{
    let ghost t = inp@;
    let ghost h = lit_at(t, pos as int, json_choice(wc));
    let ghost r1 = "\"description\""@ + (seq![':'] + (json_str(wc.description@) + (seq![','] + (
    "\"options\""@ + (seq![':'] + (json_list(p_texts(wc.options@)) + seq!['}']))))));
    let ghost r2 = seq![':'] + (json_str(wc.description@) + (seq![','] + ("\"options\""@ + (
    seq![':'] + (json_list(p_texts(wc.options@)) + seq!['}'])))));
    let ghost r3 = json_str(wc.description@) + (seq![','] + ("\"options\""@ + (seq![':'] + (
    json_list(p_texts(wc.options@)) + seq!['}']))));
    let ghost r4 = seq![','] + ("\"options\""@ + (seq![':'] + (json_list(p_texts(wc.options@))
        + seq!['}'])));
    let ghost r5 = "\"options\""@ + (seq![':'] + (json_list(p_texts(wc.options@)) + seq!['}']));
    let ghost r6 = seq![':'] + (json_list(p_texts(wc.options@)) + seq!['}']);
    let ghost r7 = json_list(p_texts(wc.options@)) + seq!['}'];
    let ghost o1 = pos + 1;
    let ghost o2 = o1 + "\"description\""@.len() as int;
    let ghost o3 = o2 + 1;
    let ghost o4 = o3 + json_str(wc.description@).len() as int;
    let ghost o5 = o4 + 1;
    let ghost o6 = o5 + "\"options\""@.len() as int;
    let ghost o7 = o6 + 1;
    let ghost o8 = o7 + json_list(p_texts(wc.options@)).len() as int;
    proof {
        if h {
            reveal_strlit("\"description\"");
            reveal_strlit("\"options\"");
            assert(json_choice(wc) == seq!['{'] + r1);
            lemma_lit_at_split(t, pos as int, seq!['{'], r1);
            lemma_lit_at_index(t, pos as int, seq!['{'], 0);
            lemma_lit_at_split(t, o1, "\"description\""@, r2);
            lemma_lit_at_index(t, o1, "\"description\""@, 0);
            lemma_lit_at_split(t, o2, seq![':'], r3);
            lemma_lit_at_index(t, o2, seq![':'], 0);
            lemma_lit_at_split(t, o3, json_str(wc.description@), r4);
            assert(json_str(wc.description@)[0] == '"');
            lemma_lit_at_index(t, o3, json_str(wc.description@), 0);
            lemma_lit_at_split(t, o4, seq![','], r5);
            lemma_lit_at_index(t, o4, seq![','], 0);
            lemma_lit_at_split(t, o5, "\"options\""@, r6);
            lemma_lit_at_index(t, o5, "\"options\""@, 0);
            lemma_lit_at_split(t, o6, seq![':'], r7);
            lemma_lit_at_index(t, o6, seq![':'], 0);
            lemma_lit_at_split(t, o7, json_list(p_texts(wc.options@)), seq!['}']);
            assert(json_list(p_texts(wc.options@))[0] == '[');
            lemma_lit_at_index(t, o7, json_list(p_texts(wc.options@)), 0);
            lemma_lit_at_index(t, o8, seq!['}'], 0);
        }
    }
    let p1 = match expect_tok(inp, pos, '{') {
        Some(p) => p,
        None => {
            return None;
        },
    };
    let p1b = skip_ws(inp, p1);
    let p2 = match expect_lit(inp, p1b, "\"description\"") {
        Some(p) => p,
        None => {
            return None;
        },
    };
    let p2b = skip_ws(inp, p2);
    let p3 = match expect_tok(inp, p2b, ':') {
        Some(p) => p,
        None => {
            return None;
        },
    };
    let p3b = skip_ws(inp, p3);
    let (description, p4) = match parse_string(inp, p3b, Ghost(wc.description@)) {
        Some(x) => x,
        None => {
            return None;
        },
    };
    let p4b = skip_ws(inp, p4);
    let p5 = match expect_tok(inp, p4b, ',') {
        Some(p) => p,
        None => {
            return None;
        },
    };
    let p5b = skip_ws(inp, p5);
    let p6 = match expect_lit(inp, p5b, "\"options\"") {
        Some(p) => p,
        None => {
            return None;
        },
    };
    let p6b = skip_ws(inp, p6);
    let p7 = match expect_tok(inp, p6b, ':') {
        Some(p) => p,
        None => {
            return None;
        },
    };
    let p7b = skip_ws(inp, p7);
    let (options, p8) = match parse_options(inp, p7b, Ghost(wc.options@)) {
        Some(x) => x,
        None => {
            return None;
        },
    };
    let p8b = skip_ws(inp, p8);
    let p9 = match expect_tok(inp, p8b, '}') {
        Some(p) => p,
        None => {
            return None;
        },
    };
    Some((Choice { description, options }, p9))
}

/// Reads a bracketed list of choices; on the canonical text of `ws` it
/// returns choices of the same content and consumes exactly that text.
#[verifier::rlimit(100)]
fn parse_choices(inp: &Vec<char>, pos: usize, Ghost(ws): Ghost<Seq<Choice>>) -> (r: Option<
    (Vec<Choice>, usize),
>)
    ensures
        r matches Some((v, j)) ==> pos < j <= inp@.len(),
        lit_at(inp@, pos as int, json_list(c_texts(ws))) ==> (r matches Some((v, j)) && v@.len()
            == ws.len() && (forall|x: int|
            0 <= x < ws.len() ==> choice_like(#[trigger] v@[x], ws[x])) && j == pos + json_list(
            c_texts(ws),
        ).len()),
{
    let ghost t = inp@;
    let ghost texts = c_texts(ws);
    let ghost h = lit_at(t, pos as int, json_list(texts));
    proof {
        if h {
            assert(seq!['['] + json_list_body(texts) + seq![']'] =~= seq!['['] + (
            json_list_body(texts) + seq![']']));
            lemma_lit_at_split(t, pos as int, seq!['['], json_list_body(texts) + seq![']']);
            lemma_lit_at_index(t, pos as int, seq!['['], 0);
        }
    }
    let p1 = match expect_tok(inp, pos, '[') {
        Some(p) => p,
        None => {
            return None;
        },
    };
    proof {
        if h {
            if texts.len() == 0 {
                assert(json_list_body(texts) + seq![']'] =~= seq![']']);
                lemma_lit_at_index(t, p1 as int, json_list_body(texts) + seq![']'], 0);
            } else {
                lemma_body_skip_step(texts, 0);
                assert(texts.skip(0) =~= texts);
                assert(texts[0] == json_choice(ws[0]));
                assert(json_choice(ws[0])[0] == '{');
                lemma_lit_at_index(t, p1 as int, json_list_body(texts) + seq![']'], 0);
                assert((json_list_body(texts) + seq![']'])[0] == texts[0][0]);
            }
        }
    }
    let s1 = skip_ws(inp, p1);
    if s1 < inp.len() && inp[s1] == ']' {
        proof {
            if h {
                assert(s1 == p1);
                if texts.len() > 0 {
                    assert(t[s1 as int] == '{');
                    assert(false);
                }
                assert(json_list_body(texts) =~= Seq::<char>::empty());
            }
        }
        let v: Vec<Choice> = Vec::new();
        return Some((v, s1 + 1));
    }
    let mut v: Vec<Choice> = Vec::new();
    let mut i: usize = s1;
    proof {
        if h {
            assert(s1 == p1);
            if texts.len() == 0 {
                assert(t[p1 as int] == ']');
                assert(p1 < t.len());
                assert(false);
            }
            assert(texts.skip(0) =~= texts);
        }
    }
    loop
        invariant
            t == inp@,
            texts == c_texts(ws),
            pos < i <= inp@.len(),
            h == lit_at(t, pos as int, json_list(texts)),
            h ==> {
                &&& v@.len() < ws.len()
                &&& lit_at(
                    t,
                    i as int,
                    json_list_body(texts.skip(v@.len() as int)) + seq![']'],
                )
                &&& i + (json_list_body(texts.skip(v@.len() as int)) + seq![']']).len() == pos
                    + json_list(texts).len()
                &&& forall|x: int| 0 <= x < v@.len() ==> choice_like(#[trigger] v@[x], ws[x])
            },
        decreases inp@.len() - i,
    {
        let ghost n = v@.len() as int;
        proof {
            if h {
                lemma_body_skip_step(texts, n);
                assert(texts[n] == json_choice(ws[n]));
                assert(json_choice(ws[n])[0] == '{');
                assert(texts[n].len() > 0);
                lemma_lit_at_index(t, i as int, json_list_body(texts.skip(n)) + seq![']'], 0);
                assert((json_list_body(texts.skip(n)) + seq![']'])[0] == texts[n][0]);
                if n + 1 < texts.len() {
                    assert((texts[n] + (seq![','] + json_list_body(texts.skip(n + 1)))) + seq![
                        ']',
                    ] =~= texts[n] + ((seq![','] + json_list_body(texts.skip(n + 1))) + seq![
                        ']',
                    ]));
                    lemma_lit_at_split(
                        t,
                        i as int,
                        texts[n],
                        (seq![','] + json_list_body(texts.skip(n + 1))) + seq![']'],
                    );
                } else {
                    lemma_lit_at_split(t, i as int, texts[n], seq![']']);
                }
            }
        }
        let i2 = skip_ws(inp, i);
        proof {
            if h {
                assert(i2 == i);
            }
        }
        let (c0, j) = match parse_choice(inp, i2, Ghost(ws[v@.len() as int])) {
            Some(x) => x,
            None => {
                return None;
            },
        };
        v.push(c0);
        let jb = skip_ws(inp, j);
        proof {
            if h {
                if n + 1 < texts.len() {
                    assert((seq![','] + json_list_body(texts.skip(n + 1))) + seq![']'] =~= seq![
                        ',',
                    ] + (json_list_body(texts.skip(n + 1)) + seq![']']));
                    lemma_lit_at_split(
                        t,
                        j as int,
                        seq![','],
                        json_list_body(texts.skip(n + 1)) + seq![']'],
                    );
                    lemma_lit_at_index(t, j as int, seq![','], 0);
                } else {
                    lemma_lit_at_index(t, j as int, seq![']'], 0);
                }
                assert(jb == j);
            }
        }
        if jb >= inp.len() {
            proof {
                if h {
                    assert(false);
                }
            }
            return None;
        }
        let c = inp[jb];
        if c == ']' {
            proof {
                if h {
                    if n + 1 < texts.len() {
                        assert(t[jb as int] == ',');
                        assert(false);
                    }
                    assert(v@.len() == ws.len());
                    assert forall|x: int| 0 <= x < ws.len() implies choice_like(
                        #[trigger] v@[x],
                        ws[x],
                    ) by {
                        if x < n {
                            assert(choice_like(v@[x], ws[x]));
                        }
                    }
                }
            }
            return Some((v, jb + 1));
        } else if c == ',' {
            proof {
                if h {
                    if n + 1 == texts.len() {
                        assert(t[jb as int] == ']');
                        assert(false);
                    }
                    assert forall|x: int| 0 <= x < v@.len() implies choice_like(
                        #[trigger] v@[x],
                        ws[x],
                    ) by {
                        if x < n {
                            assert(choice_like(v@[x], ws[x]));
                        }
                    }
                }
            }
            i = jb + 1;
        } else {
            proof {
                if h {
                    assert(false);
                }
            }
            return None;
        }
    }
}

/// Reads one link; on the canonical text of `wl` it returns a link of the
/// same content and consumes exactly that text.
#[verifier::rlimit(100)]
fn parse_link(inp: &Vec<char>, pos: usize, Ghost(wl): Ghost<Link>) -> (r: Option<(Link, usize)>)
    ensures
        r matches Some((l, j)) ==> pos < j <= inp@.len(),
        lit_at(inp@, pos as int, json_link(wl)) ==> (r matches Some((l, j)) && link_like(l, wl)
            && j == pos + json_link(wl).len()),
{
    let ghost t = inp@;
    let ghost h = lit_at(t, pos as int, json_link(wl));
    let ghost r1 = "\"id\""@ + (seq![':'] + (json_str(wl.id@) + (seq![','] + ("\"description\""@
        + (seq![':'] + (json_str(wl.description@) + (seq![','] + ("\"choices\""@ + (seq![':'] + (
    json_list(c_texts(wl.choices@)) + seq!['}']))))))))));
    let ghost r2 = seq![':'] + (json_str(wl.id@) + (seq![','] + ("\"description\""@ + (seq![':']
        + (json_str(wl.description@) + (seq![','] + ("\"choices\""@ + (seq![':'] + (json_list(
        c_texts(wl.choices@),
    ) + seq!['}'])))))))));
    let ghost r3 = json_str(wl.id@) + (seq![','] + ("\"description\""@ + (seq![':'] + (json_str(
        wl.description@,
    ) + (seq![','] + ("\"choices\""@ + (seq![':'] + (json_list(c_texts(wl.choices@)) + seq![
        '}',
    ]))))))));
    let ghost r4 = seq![','] + ("\"description\""@ + (seq![':'] + (json_str(wl.description@) + (
    seq![','] + ("\"choices\""@ + (seq![':'] + (json_list(c_texts(wl.choices@)) + seq!['}'])))))));
    let ghost r5 = "\"description\""@ + (seq![':'] + (json_str(wl.description@) + (seq![','] + (
    "\"choices\""@ + (seq![':'] + (json_list(c_texts(wl.choices@)) + seq!['}']))))));
    let ghost r6 = seq![':'] + (json_str(wl.description@) + (seq![','] + ("\"choices\""@ + (
    seq![':'] + (json_list(c_texts(wl.choices@)) + seq!['}'])))));
    let ghost r7 = json_str(wl.description@) + (seq![','] + ("\"choices\""@ + (seq![':'] + (
    json_list(c_texts(wl.choices@)) + seq!['}']))));
    let ghost r8 = seq![','] + ("\"choices\""@ + (seq![':'] + (json_list(c_texts(wl.choices@))
        + seq!['}'])));
    let ghost r9 = "\"choices\""@ + (seq![':'] + (json_list(c_texts(wl.choices@)) + seq!['}']));
    let ghost r10 = seq![':'] + (json_list(c_texts(wl.choices@)) + seq!['}']);
    let ghost r11 = json_list(c_texts(wl.choices@)) + seq!['}'];
    let ghost o1 = pos + 1;
    let ghost o2 = o1 + "\"id\""@.len() as int;
    let ghost o3 = o2 + 1;
    let ghost o4 = o3 + json_str(wl.id@).len() as int;
    let ghost o5 = o4 + 1;
    let ghost o6 = o5 + "\"description\""@.len() as int;
    let ghost o7 = o6 + 1;
    let ghost o8 = o7 + json_str(wl.description@).len() as int;
    let ghost o9 = o8 + 1;
    let ghost o10 = o9 + "\"choices\""@.len() as int;
    let ghost o11 = o10 + 1;
    let ghost o12 = o11 + json_list(c_texts(wl.choices@)).len() as int;
    proof {
        if h {
            reveal_strlit("\"id\"");
            reveal_strlit("\"description\"");
            reveal_strlit("\"choices\"");
            assert(json_link(wl) == seq!['{'] + r1);
            lemma_lit_at_split(t, pos as int, seq!['{'], r1);
            lemma_lit_at_index(t, pos as int, seq!['{'], 0);
            lemma_lit_at_split(t, o1, "\"id\""@, r2);
            lemma_lit_at_index(t, o1, "\"id\""@, 0);
            lemma_lit_at_split(t, o2, seq![':'], r3);
            lemma_lit_at_index(t, o2, seq![':'], 0);
            lemma_lit_at_split(t, o3, json_str(wl.id@), r4);
            assert(json_str(wl.id@)[0] == '"');
            lemma_lit_at_index(t, o3, json_str(wl.id@), 0);
            lemma_lit_at_split(t, o4, seq![','], r5);
            lemma_lit_at_index(t, o4, seq![','], 0);
            lemma_lit_at_split(t, o5, "\"description\""@, r6);
            lemma_lit_at_index(t, o5, "\"description\""@, 0);
            lemma_lit_at_split(t, o6, seq![':'], r7);
            lemma_lit_at_index(t, o6, seq![':'], 0);
            lemma_lit_at_split(t, o7, json_str(wl.description@), r8);
            assert(json_str(wl.description@)[0] == '"');
            lemma_lit_at_index(t, o7, json_str(wl.description@), 0);
            lemma_lit_at_split(t, o8, seq![','], r9);
            lemma_lit_at_index(t, o8, seq![','], 0);
            lemma_lit_at_split(t, o9, "\"choices\""@, r10);
            lemma_lit_at_index(t, o9, "\"choices\""@, 0);
            lemma_lit_at_split(t, o10, seq![':'], r11);
            lemma_lit_at_index(t, o10, seq![':'], 0);
            lemma_lit_at_split(t, o11, json_list(c_texts(wl.choices@)), seq!['}']);
            assert(json_list(c_texts(wl.choices@))[0] == '[');
            lemma_lit_at_index(t, o11, json_list(c_texts(wl.choices@)), 0);
            lemma_lit_at_index(t, o12, seq!['}'], 0);
        }
    }
    let p1 = match expect_tok(inp, pos, '{') {
        Some(p) => p,
        None => {
            return None;
        },
    };
    let p1b = skip_ws(inp, p1);
    let p2 = match expect_lit(inp, p1b, "\"id\"") {
        Some(p) => p,
        None => {
            return None;
        },
    };
    let p2b = skip_ws(inp, p2);
    let p3 = match expect_tok(inp, p2b, ':') {
        Some(p) => p,
        None => {
            return None;
        },
    };
    let p3b = skip_ws(inp, p3);
    let (id, p4) = match parse_string(inp, p3b, Ghost(wl.id@)) {
        Some(x) => x,
        None => {
            return None;
        },
    };
    let p4b = skip_ws(inp, p4);
    let p5 = match expect_tok(inp, p4b, ',') {
        Some(p) => p,
        None => {
            return None;
        },
    };
    let p5b = skip_ws(inp, p5);
    let p6 = match expect_lit(inp, p5b, "\"description\"") {
        Some(p) => p,
        None => {
            return None;
        },
    };
    let p6b = skip_ws(inp, p6);
    let p7 = match expect_tok(inp, p6b, ':') {
        Some(p) => p,
        None => {
            return None;
        },
    };
    let p7b = skip_ws(inp, p7);
    let (description, p8) = match parse_string(inp, p7b, Ghost(wl.description@)) {
        Some(x) => x,
        None => {
            return None;
        },
    };
    let p8b = skip_ws(inp, p8);
    let p9 = match expect_tok(inp, p8b, ',') {
        Some(p) => p,
        None => {
            return None;
        },
    };
    let p9b = skip_ws(inp, p9);
    let p10 = match expect_lit(inp, p9b, "\"choices\"") {
        Some(p) => p,
        None => {
            return None;
        },
    };
    let p10b = skip_ws(inp, p10);
    let p11 = match expect_tok(inp, p10b, ':') {
        Some(p) => p,
        None => {
            return None;
        },
    };
    let p11b = skip_ws(inp, p11);
    let (choices, p12) = match parse_choices(inp, p11b, Ghost(wl.choices@)) {
        Some(x) => x,
        None => {
            return None;
        },
    };
    let p12b = skip_ws(inp, p12);
    let p13 = match expect_tok(inp, p12b, '}') {
        Some(p) => p,
        None => {
            return None;
        },
    };
    Some((Link { id, description, choices }, p13))
}

/// Reads a bracketed list of links; on the canonical text of the links `ws`
/// it returns links of the same content and consumes exactly that text.
#[verifier::rlimit(100)]
fn parse_links(inp: &Vec<char>, pos: usize, Ghost(ws): Ghost<Seq<Link>>) -> (r: Option<
    (Vec<Link>, usize),
>)
    ensures
        r matches Some((v, j)) ==> pos < j <= inp@.len(),
        lit_at(inp@, pos as int, json_list(l_texts(ws))) ==> (r matches Some((v, j)) && v@.len()
            == ws.len() && (forall|x: int|
            0 <= x < ws.len() ==> link_like(#[trigger] v@[x], ws[x])) && j == pos + json_list(
            l_texts(ws),
        ).len()),
{
    let ghost t = inp@;
    let ghost texts = l_texts(ws);
    let ghost h = lit_at(t, pos as int, json_list(texts));
    proof {
        if h {
            assert(seq!['['] + json_list_body(texts) + seq![']'] =~= seq!['['] + (
            json_list_body(texts) + seq![']']));
            lemma_lit_at_split(t, pos as int, seq!['['], json_list_body(texts) + seq![']']);
            lemma_lit_at_index(t, pos as int, seq!['['], 0);
        }
    }
    let p1 = match expect_tok(inp, pos, '[') {
        Some(p) => p,
        None => {
            return None;
        },
    };
    proof {
        if h {
            if texts.len() == 0 {
                assert(json_list_body(texts) + seq![']'] =~= seq![']']);
                lemma_lit_at_index(t, p1 as int, json_list_body(texts) + seq![']'], 0);
            } else {
                lemma_body_skip_step(texts, 0);
                assert(texts.skip(0) =~= texts);
                assert(texts[0] == json_link(ws[0]));
                assert(json_link(ws[0])[0] == '{');
                lemma_lit_at_index(t, p1 as int, json_list_body(texts) + seq![']'], 0);
                assert((json_list_body(texts) + seq![']'])[0] == texts[0][0]);
            }
        }
    }
    let s1 = skip_ws(inp, p1);
    if s1 < inp.len() && inp[s1] == ']' {
        proof {
            if h {
                assert(s1 == p1);
                if texts.len() > 0 {
                    assert(t[s1 as int] == '{');
                    assert(false);
                }
                assert(json_list_body(texts) =~= Seq::<char>::empty());
            }
        }
        let v: Vec<Link> = Vec::new();
        return Some((v, s1 + 1));
    }
    let mut v: Vec<Link> = Vec::new();
    let mut i: usize = s1;
    proof {
        if h {
            assert(s1 == p1);
            if texts.len() == 0 {
                assert(t[p1 as int] == ']');
                assert(p1 < t.len());
                assert(false);
            }
            assert(texts.skip(0) =~= texts);
        }
    }
    loop
        invariant
            t == inp@,
            texts == l_texts(ws),
            pos < i <= inp@.len(),
            h == lit_at(t, pos as int, json_list(texts)),
            h ==> {
                &&& v@.len() < ws.len()
                &&& lit_at(
                    t,
                    i as int,
                    json_list_body(texts.skip(v@.len() as int)) + seq![']'],
                )
                &&& i + (json_list_body(texts.skip(v@.len() as int)) + seq![']']).len() == pos
                    + json_list(texts).len()
                &&& forall|x: int| 0 <= x < v@.len() ==> link_like(#[trigger] v@[x], ws[x])
            },
        decreases inp@.len() - i,
    {
        let ghost n = v@.len() as int;
        proof {
            if h {
                lemma_body_skip_step(texts, n);
                assert(texts[n] == json_link(ws[n]));
                assert(json_link(ws[n])[0] == '{');
                assert(texts[n].len() > 0);
                lemma_lit_at_index(t, i as int, json_list_body(texts.skip(n)) + seq![']'], 0);
                assert((json_list_body(texts.skip(n)) + seq![']'])[0] == texts[n][0]);
                if n + 1 < texts.len() {
                    assert((texts[n] + (seq![','] + json_list_body(texts.skip(n + 1)))) + seq![
                        ']',
                    ] =~= texts[n] + ((seq![','] + json_list_body(texts.skip(n + 1))) + seq![
                        ']',
                    ]));
                    lemma_lit_at_split(
                        t,
                        i as int,
                        texts[n],
                        (seq![','] + json_list_body(texts.skip(n + 1))) + seq![']'],
                    );
                } else {
                    lemma_lit_at_split(t, i as int, texts[n], seq![']']);
                }
            }
        }
        let i2 = skip_ws(inp, i);
        proof {
            if h {
                assert(i2 == i);
            }
        }
        let (l0, j) = match parse_link(inp, i2, Ghost(ws[v@.len() as int])) {
            Some(x) => x,
            None => {
                return None;
            },
        };
        v.push(l0);
        let jb = skip_ws(inp, j);
        proof {
            if h {
                if n + 1 < texts.len() {
                    assert((seq![','] + json_list_body(texts.skip(n + 1))) + seq![']'] =~= seq![
                        ',',
                    ] + (json_list_body(texts.skip(n + 1)) + seq![']']));
                    lemma_lit_at_split(
                        t,
                        j as int,
                        seq![','],
                        json_list_body(texts.skip(n + 1)) + seq![']'],
                    );
                    lemma_lit_at_index(t, j as int, seq![','], 0);
                } else {
                    lemma_lit_at_index(t, j as int, seq![']'], 0);
                }
                assert(jb == j);
            }
        }
        if jb >= inp.len() {
            proof {
                if h {
                    assert(false);
                }
            }
            return None;
        }
        let c = inp[jb];
        if c == ']' {
            proof {
                if h {
                    if n + 1 < texts.len() {
                        assert(t[jb as int] == ',');
                        assert(false);
                    }
                    assert(v@.len() == ws.len());
                    assert forall|x: int| 0 <= x < ws.len() implies link_like(
                        #[trigger] v@[x],
                        ws[x],
                    ) by {
                        if x < n {
                            assert(link_like(v@[x], ws[x]));
                        }
                    }
                }
            }
            return Some((v, jb + 1));
        } else if c == ',' {
            proof {
                if h {
                    if n + 1 == texts.len() {
                        assert(t[jb as int] == ']');
                        assert(false);
                    }
                    assert forall|x: int| 0 <= x < v@.len() implies link_like(
                        #[trigger] v@[x],
                        ws[x],
                    ) by {
                        if x < n {
                            assert(link_like(v@[x], ws[x]));
                        }
                    }
                }
            }
            i = jb + 1;
        } else {
            proof {
                if h {
                    assert(false);
                }
            }
            return None;
        }
    }
}

/// A subrange splits at any midpoint into the two adjoining subranges.
proof fn lemma_cat3(w: Seq<char>, a: int, b: int, c: int)
    requires
        0 <= a <= b <= c <= w.len(),
    ensures
        w.subrange(a, c) == w.subrange(a, b) + w.subrange(b, c),
{
    assert(w.subrange(a, c) =~= w.subrange(a, b) + w.subrange(b, c));
}

/// The whitespace and string-token pieces of one field group.
pub open spec fn field_parts(
    w1: Seq<char>,
    w2: Seq<char>,
    w3: Seq<char>,
    ts: Seq<char>,
    v: Seq<char>,
) -> bool {
    &&& ws_only(w1)
    &&& ws_only(w2)
    &&& ws_only(w3)
    &&& str_text(ts, v)
}

/// Whether `t` is one `<lead> <key> : <string>` field group whose string
/// stands for `v`, with whitespace between tokens.
pub open spec fn field_text(t: Seq<char>, lead: char, key: Seq<char>, v: Seq<char>) -> bool {
    exists|w1: Seq<char>, w2: Seq<char>, w3: Seq<char>, ts: Seq<char>|
        #[trigger] field_parts(w1, w2, w3, ts, v) && t == seq![lead] + (w1 + (key + (w2 + (seq![
            ':',
        ] + (w3 + ts)))))
}

/// Reads one `<lead> <key> : <string>` field group, whitespace between
/// tokens allowed; on canonical text it consumes exactly the group.
#[verifier::rlimit(100)]
fn parse_field(
    inp: &Vec<char>,
    pos: usize,
    lead: char,
    key: &str,
    Ghost(wv): Ghost<Seq<char>>,
    Ghost(rest): Ghost<Seq<char>>,
) -> (r: Option<(String, usize)>)
    ensures
        r matches Some((s, j)) ==> pos < j <= inp@.len() && field_text(
            inp@.subrange(pos as int, j as int),
            lead,
            key@,
            s@,
        ),
        (lit_at(
            inp@,
            pos as int,
            seq![lead] + (key@ + (seq![':'] + (json_str(wv) + rest))),
        ) && key@.len() > 0 && key@[0] == '"') ==> (r matches Some((s, j)) && s@ == wv && j
            == pos + 1 + key@.len() + 1 + json_str(wv).len() && lit_at(inp@, j as int, rest)),
{
    let ghost t = inp@;
    let ghost h = lit_at(t, pos as int, seq![lead] + (key@ + (seq![':'] + (json_str(wv) + rest))))
        && key@.len() > 0 && key@[0] == '"';
    let ghost o1 = pos + 1;
    let ghost o2 = o1 + key@.len() as int;
    let ghost o3 = o2 + 1;
    let ghost o4 = o3 + json_str(wv).len() as int;
    proof {
        if h {
            lemma_lit_at_split(t, pos as int, seq![lead], key@ + (seq![':'] + (json_str(wv)
                + rest)));
            lemma_lit_at_index(t, pos as int, seq![lead], 0);
            lemma_lit_at_split(t, o1, key@, seq![':'] + (json_str(wv) + rest));
            lemma_lit_at_index(t, o1, key@, 0);
            lemma_lit_at_split(t, o2, seq![':'], json_str(wv) + rest);
            lemma_lit_at_index(t, o2, seq![':'], 0);
            lemma_lit_at_split(t, o3, json_str(wv), rest);
            assert(json_str(wv)[0] == '"');
            lemma_lit_at_index(t, o3, json_str(wv), 0);
        }
    }
    let p1 = match expect_tok(inp, pos, lead) {
        Some(p) => p,
        None => {
            return None;
        },
    };
    let p1b = skip_ws(inp, p1);
    let p2 = match expect_lit(inp, p1b, key) {
        Some(p) => p,
        None => {
            return None;
        },
    };
    let p2b = skip_ws(inp, p2);
    let p3 = match expect_tok(inp, p2b, ':') {
        Some(p) => p,
        None => {
            return None;
        },
    };
    let p3b = skip_ws(inp, p3);
    let (value, p4) = match parse_string(inp, p3b, Ghost(wv)) {
        Some(x) => x,
        None => {
            return None;
        },
    };
    proof {
        let w1 = t.subrange(p1 as int, p1b as int);
        let w2 = t.subrange(p2 as int, p2b as int);
        let w3 = t.subrange(p3 as int, p3b as int);
        let ts = t.subrange(p3b as int, p4 as int);
        lemma_cat3(t, p3 as int, p3b as int, p4 as int);
        lemma_cat3(t, p2b as int, p3 as int, p4 as int);
        lemma_cat3(t, p2 as int, p2b as int, p4 as int);
        lemma_cat3(t, p1b as int, p2 as int, p4 as int);
        lemma_cat3(t, p1 as int, p1b as int, p4 as int);
        lemma_cat3(t, pos as int, p1 as int, p4 as int);
        assert(t.subrange(pos as int, p1 as int) =~= seq![lead]);
        assert(t.subrange(p2b as int, p3 as int) =~= seq![':']);
        assert(field_parts(w1, w2, w3, ts, value@));
        assert(t.subrange(pos as int, p4 as int) == seq![lead] + (w1 + (key@ + (w2 + (seq![':']
            + (w3 + ts))))));
        assert(field_text(t.subrange(pos as int, p4 as int), lead, key@, value@));
    }
    Some((value, p4))
}

/// Deserializes a story document: fixed keys in fixed order, whitespace
/// between tokens and the standard string escapes accepted. Every canonical
/// text parses, back to a story of the same content.
#[verifier::rlimit(100)]
#[verifier::spinoff_prover]
pub fn parse_story(raw_text: &str) -> (r: Result<StoryMap, ParseError>)
    ensures
        forall|m: StoryMap| raw_text@ == json_story(m) ==> (r matches Ok(m2) && story_like(
            m2,
            m,
        )),
{
    let inp = str_to_chars(raw_text);
    let ghost t = inp@;
    let ghost wm: StoryMap = if exists|m: StoryMap| t == json_story(m) {
        choose|m: StoryMap| t == json_story(m)
    } else {
        arbitrary()
    };
    let ghost h = t == json_story(wm);
    let ghost r19 = json_list(l_texts(wm.links@)) + seq!['}'];
    let ghost r18 = seq![':'] + r19;
    let ghost r17 = "\"links\""@ + r18;
    let ghost r16 = seq![','] + r17;
    let ghost r15 = json_str(wm.init_link_id@) + r16;
    let ghost r14 = seq![':'] + r15;
    let ghost r13 = "\"init_link_id\""@ + r14;
    let ghost r12 = seq![','] + r13;
    let ghost r11 = json_str(wm.description@) + r12;
    let ghost r10 = seq![':'] + r11;
    let ghost r9 = "\"description\""@ + r10;
    let ghost r8 = seq![','] + r9;
    let ghost r7 = json_str(wm.name@) + r8;
    let ghost r6 = seq![':'] + r7;
    let ghost r5 = "\"name\""@ + r6;
    let ghost r4 = seq![','] + r5;
    proof {
        if h {
            reveal_strlit("\"id\"");
            reveal_strlit("\"name\"");
            reveal_strlit("\"description\"");
            reveal_strlit("\"init_link_id\"");
            reveal_strlit("\"links\"");
            assert(t.subrange(0, t.len() as int) =~= t);
            assert(lit_at(t, 0, json_story(wm)));
            assert(json_story(wm) == seq!['{'] + ("\"id\""@ + (seq![':'] + (json_str(wm.id@)
                + r4))));
            lemma_lit_at_index(t, 0, json_story(wm), 0);
        }
    }
    let s0 = skip_ws(&inp, 0);
    let (id, p4) = match parse_field(&inp, s0, '{', "\"id\"", Ghost(wm.id@), Ghost(r4)) {
        Some(x) => x,
        None => {
            return Err(ParseError::Malformed);
        },
    };
    proof {
        if h {
            lemma_lit_at_index(t, p4 as int, r4, 0);
        }
    }
    let p4b = skip_ws(&inp, p4);
    let (name, p8) = match parse_field(&inp, p4b, ',', "\"name\"", Ghost(wm.name@), Ghost(r8)) {
        Some(x) => x,
        None => {
            return Err(ParseError::Malformed);
        },
    };
    proof {
        if h {
            lemma_lit_at_index(t, p8 as int, r8, 0);
        }
    }
    let p8b = skip_ws(&inp, p8);
    let (description, p12) = match parse_field(
        &inp,
        p8b,
        ',',
        "\"description\"",
        Ghost(wm.description@),
        Ghost(r12),
    ) {
        Some(x) => x,
        None => {
            return Err(ParseError::Malformed);
        },
    };
    proof {
        if h {
            lemma_lit_at_index(t, p12 as int, r12, 0);
        }
    }
    let p12b = skip_ws(&inp, p12);
    let (init_link_id, p16) = match parse_field(
        &inp,
        p12b,
        ',',
        "\"init_link_id\"",
        Ghost(wm.init_link_id@),
        Ghost(r16),
    ) {
        Some(x) => x,
        None => {
            return Err(ParseError::Malformed);
        },
    };
    proof {
        if h {
            lemma_lit_at_index(t, p16 as int, r16, 0);
            lemma_lit_at_split(t, p16 as int, seq![','], r17);
            lemma_lit_at_split(t, p16 + 1, "\"links\""@, r18);
            lemma_lit_at_index(t, p16 + 1, "\"links\""@, 0);
            lemma_lit_at_split(t, p16 + 1 + "\"links\""@.len() as int, seq![':'], r19);
            lemma_lit_at_index(t, p16 + 1 + "\"links\""@.len() as int, seq![':'], 0);
            lemma_lit_at_split(
                t,
                p16 + 2 + "\"links\""@.len() as int,
                json_list(l_texts(wm.links@)),
                seq!['}'],
            );
            assert(json_list(l_texts(wm.links@))[0] == '[');
            lemma_lit_at_index(
                t,
                p16 + 2 + "\"links\""@.len() as int,
                json_list(l_texts(wm.links@)),
                0,
            );
            lemma_lit_at_index(
                t,
                p16 + 2 + "\"links\""@.len() as int + json_list(l_texts(wm.links@)).len() as int,
                seq!['}'],
                0,
            );
        }
    }
    let p16b = skip_ws(&inp, p16);
    let p17 = match expect_tok(&inp, p16b, ',') {
        Some(p) => p,
        None => {
            return Err(ParseError::Malformed);
        },
    };
    let p17b = skip_ws(&inp, p17);
    let p18 = match expect_lit(&inp, p17b, "\"links\"") {
        Some(p) => p,
        None => {
            return Err(ParseError::Malformed);
        },
    };
    let p18b = skip_ws(&inp, p18);
    let p19 = match expect_tok(&inp, p18b, ':') {
        Some(p) => p,
        None => {
            return Err(ParseError::Malformed);
        },
    };
    let p19b = skip_ws(&inp, p19);
    let (links, p20) = match parse_links(&inp, p19b, Ghost(wm.links@)) {
        Some(x) => x,
        None => {
            return Err(ParseError::Malformed);
        },
    };
    let p20b = skip_ws(&inp, p20);
    let p21 = match expect_tok(&inp, p20b, '}') {
        Some(p) => p,
        None => {
            return Err(ParseError::Malformed);
        },
    };
    let p21b = skip_ws(&inp, p21);
    if p21b != inp.len() {
        proof {
            if h {
                assert(p21 == t.len());
                assert(false);
            }
        }
        return Err(ParseError::Malformed);
    }
    let m2 = StoryMap { id, name, description, init_link_id, links };
    proof {
        if h {
            assert(story_like(m2, wm));
        }
    }
    let r = Ok(m2);
    proof {
        assert forall|m: StoryMap| raw_text@ == json_story(m) implies story_like(m2, m) by {
            assert(json_story(m) == json_story(wm));
            lemma_json_story_injective(m, wm);
            crate::story::lemma_story_like_sym_trans(m2, wm, m);
        }
    }
    r
}

/// Loads a story: deserializes the document and checks the structural
/// invariants, refusing a story that parses but is invalid. A valid story's
/// canonical text always loads, back to a story of the same content.
pub fn load(raw_text: &str) -> (r: Result<StoryMap, LoadError>)
    ensures
        r matches Ok(m) ==> story_valid(m),
        forall|m: StoryMap| raw_text@ == json_story(m) ==> match r {
            Ok(m2) => story_like(m2, m) && story_valid(m),
            Err(LoadError::Validation(_)) => !story_valid(m),
            Err(LoadError::Parse(_)) => false,
        },
{
    let m2 = match parse_story(raw_text) {
        Ok(m2) => m2,
        Err(e) => {
            return Err(LoadError::Parse(e));
        },
    };
    let r = match validate(&m2) {
        Ok(()) => Ok(m2),
        Err(e) => Err(LoadError::Validation(e)),
    };
    proof {
        assert forall|m: StoryMap| raw_text@ == json_story(m) implies match r {
            Ok(m3) => story_like(m3, m) && story_valid(m),
            Err(LoadError::Validation(_)) => !story_valid(m),
            Err(LoadError::Parse(_)) => false,
        } by {
            assert(story_like(m2, m));
            lemma_like_stories_validate_alike(m2, m);
        }
    }
    r
}

proof fn lemma_concat_split(a: Seq<char>, b: Seq<char>, c: Seq<char>, d: Seq<char>)
    requires
        a + b == c + d,
        a.len() == c.len(),
    ensures
        a == c,
        b == d,
{
    assert forall|i: int| 0 <= i < a.len() implies a[i] == c[i] by {
        assert((a + b)[i] == a[i]);
        assert((c + d)[i] == c[i]);
    }
    assert(a =~= c);
    assert((a + b).len() == (c + d).len());
    assert((a + b).len() == a.len() + b.len());
    assert((c + d).len() == c.len() + d.len());
    assert(b.len() == d.len());
    assert forall|i: int| 0 <= i < b.len() implies b[i] == d[i] by {
        assert((a + b)[a.len() + i] == b[i]);
        assert((c + d)[c.len() + i] == d[i]);
    }
    assert(b =~= d);
}

proof fn lemma_char_int_eq(c1: char, c2: char)
    requires
        c1 as int == c2 as int,
    ensures
        c1 == c2,
{
    assert(c1 as u32 as int == c1 as int);
    assert(c2 as u32 as int == c2 as int);
    lemma_char_code_inj(c1, c2);
}

/// An escaped string body closed by its quote is read one way only.
#[verifier::rlimit(100)]
#[verifier::spinoff_prover]
proof fn lemma_esc_term_unamb(s1: Seq<char>, s2: Seq<char>, r1: Seq<char>, r2: Seq<char>)
    requires
        esc(s1) + seq!['"'] + r1 == esc(s2) + seq!['"'] + r2,
    ensures
        s1 == s2,
        r1 == r2,
    decreases s1.len(),
{
    if s1.len() == 0 {
        assert((esc(s1) + seq!['"'] + r1)[0] == '"');
        if s2.len() > 0 {
            lemma_esc_char_facts(s2[0]);
            assert(esc(s2) == esc_char(s2[0]) + esc(s2.drop_first()));
            assert(esc(s2)[0] == esc_char(s2[0])[0]);
            assert((esc(s2) + seq!['"'] + r2)[0] == esc(s2)[0]);
            assert(false);
        }
        assert(esc(s1) + seq!['"'] + r1 =~= seq!['"'] + r1);
        assert(esc(s2) + seq!['"'] + r2 =~= seq!['"'] + r2);
        lemma_concat_split(seq!['"'], r1, seq!['"'], r2);
        assert(s1 =~= s2);
    } else if s2.len() == 0 {
        lemma_esc_char_facts(s1[0]);
        assert(esc(s1) == esc_char(s1[0]) + esc(s1.drop_first()));
        assert(esc(s1)[0] == esc_char(s1[0])[0]);
        assert((esc(s1) + seq!['"'] + r1)[0] == esc(s1)[0]);
        assert((esc(s2) + seq!['"'] + r2)[0] == '"');
        assert(false);
    } else {
        let c1 = s1[0];
        let c2 = s2[0];
        lemma_esc_char_facts(c1);
        lemma_esc_char_facts(c2);
        assert(esc(s1) == esc_char(c1) + esc(s1.drop_first()));
        assert(esc(s2) == esc_char(c2) + esc(s2.drop_first()));
        let t1 = esc(s1.drop_first()) + seq!['"'] + r1;
        let t2 = esc(s2.drop_first()) + seq!['"'] + r2;
        assert(esc(s1) + seq!['"'] + r1 =~= esc_char(c1) + t1);
        assert(esc(s2) + seq!['"'] + r2 =~= esc_char(c2) + t2);
        assert((esc_char(c1) + t1)[0] == esc_char(c1)[0]);
        assert((esc_char(c2) + t2)[0] == esc_char(c2)[0]);
        if esc_char(c1).len() != esc_char(c2).len() {
            if esc_char(c1).len() == 1 {
                assert(esc_char(c2)[0] == '\\');
                assert(false);
            } else if esc_char(c2).len() == 1 {
                assert(esc_char(c1)[0] == '\\');
                assert(false);
            } else {
                assert((esc_char(c1) + t1)[1] == esc_char(c1)[1]);
                assert((esc_char(c2) + t2)[1] == esc_char(c2)[1]);
                assert(esc_char(c1)[1] == esc_char(c2)[1]);
                if esc_char(c1).len() == 2 {
                    assert(esc_char(c1)[1] == '"' || esc_char(c1)[1] == '\\');
                    assert(esc_char(c2)[1] == 'u');
                    assert(false);
                } else {
                    assert(esc_char(c1)[1] == 'u');
                    assert(esc_char(c2)[1] == '"' || esc_char(c2)[1] == '\\');
                    assert(false);
                }
            }
        }
        lemma_concat_split(esc_char(c1), t1, esc_char(c2), t2);
        if esc_char(c1).len() == 1 {
            assert(c1 == esc_char(c1)[0] && c2 == esc_char(c2)[0]);
        } else if esc_char(c1).len() == 2 {
            assert(c1 == esc_char(c1)[1] && c2 == esc_char(c2)[1]);
        } else {
            assert(esc_char(c1)[4] == esc_char(c2)[4]);
            assert(esc_char(c1)[5] == esc_char(c2)[5]);
            lemma_hex_digit_inj(c1 as int / 16, c2 as int / 16);
            lemma_hex_digit_inj(c1 as int % 16, c2 as int % 16);
            assert(c1 as int == c2 as int);
            lemma_char_int_eq(c1, c2);
        }
        assert(c1 == c2);
        lemma_esc_term_unamb(s1.drop_first(), s2.drop_first(), r1, r2);
        assert forall|i: int| 0 <= i < s1.len() implies s1[i] == s2[i] by {
            if i > 0 {
                assert(s1[i] == s1.drop_first()[i - 1]);
                assert(s2[i] == s2.drop_first()[i - 1]);
            }
        }
        assert(s1 =~= s2);
    }
}

/// A quoted string token is read one way only.
proof fn lemma_json_str_unamb(s1: Seq<char>, s2: Seq<char>, r1: Seq<char>, r2: Seq<char>)
    requires
        json_str(s1) + r1 == json_str(s2) + r2,
    ensures
        s1 == s2,
        r1 == r2,
{
    assert(json_str(s1) + r1 =~= seq!['"'] + (esc(s1) + seq!['"'] + r1));
    assert(json_str(s2) + r2 =~= seq!['"'] + (esc(s2) + seq!['"'] + r2));
    lemma_concat_split(
        seq!['"'],
        esc(s1) + seq!['"'] + r1,
        seq!['"'],
        esc(s2) + seq!['"'] + r2,
    );
    lemma_esc_term_unamb(s1, s2, r1, r2);
}

/// An option object is read one way only.
#[verifier::rlimit(100)]
#[verifier::spinoff_prover]
proof fn lemma_pair_unamb(
    o1: LinkProbabilityPair,
    o2: LinkProbabilityPair,
    r1: Seq<char>,
    r2: Seq<char>,
)
    requires
        json_pair(o1) + r1 == json_pair(o2) + r2,
    ensures
        pair_like(o1, o2),
        r1 == r2,
{
    let k1 = seq!['{'] + ("\"link\""@ + seq![':']);
    let k2 = seq![','] + ("\"probability\""@ + seq![':']);
    let k3 = seq!['}'];
    let a1 = json_str(o1.link@) + (k2 + (json_str(o1.probability@) + (k3 + r1)));
    let a2 = json_str(o2.link@) + (k2 + (json_str(o2.probability@) + (k3 + r2)));
    assert(json_pair(o1) + r1 =~= k1 + a1);
    assert(json_pair(o2) + r2 =~= k1 + a2);
    lemma_concat_split(k1, a1, k1, a2);
    lemma_json_str_unamb(
        o1.link@,
        o2.link@,
        k2 + (json_str(o1.probability@) + (k3 + r1)),
        k2 + (json_str(o2.probability@) + (k3 + r2)),
    );
    lemma_concat_split(
        k2,
        json_str(o1.probability@) + (k3 + r1),
        k2,
        json_str(o2.probability@) + (k3 + r2),
    );
    lemma_json_str_unamb(o1.probability@, o2.probability@, k3 + r1, k3 + r2);
    lemma_concat_split(k3, r1, k3, r2);
}

proof fn lemma_pair_text_head(o: LinkProbabilityPair)
    ensures
        json_pair(o).len() > 0,
        json_pair(o)[0] == '{',
{
}

/// The comma-joined bodies of two option lists closed by their bracket are
/// read one way only.
#[verifier::rlimit(100)]
#[verifier::spinoff_prover]
proof fn lemma_options_body_unamb(
    v1: Seq<LinkProbabilityPair>,
    v2: Seq<LinkProbabilityPair>,
    r1: Seq<char>,
    r2: Seq<char>,
)
    requires
        json_list_body(p_texts(v1)) + seq![']'] + r1 == json_list_body(p_texts(v2)) + seq![']']
            + r2,
    ensures
        v1.len() == v2.len(),
        forall|i: int| 0 <= i < v1.len() ==> pair_like(#[trigger] v1[i], v2[i]),
        r1 == r2,
    decreases v1.len(),
{
    if v1.len() == 0 {
        assert(p_texts(v1) =~= Seq::<Seq<char>>::empty());
        assert(json_list_body(p_texts(v1)) =~= Seq::<char>::empty());
        assert((json_list_body(p_texts(v1)) + seq![']'] + r1)[0] == ']');
        if v2.len() > 0 {
            lemma_pair_text_head(v2[0]);
            assert(p_texts(v2)[0] == json_pair(v2[0]));
            assert(json_list_body(p_texts(v2))[0] == json_pair(v2[0])[0]);
            assert((json_list_body(p_texts(v2)) + seq![']'] + r2)[0] == '{');
            assert(false);
        }
        assert(json_list_body(p_texts(v1)) + seq![']'] + r1 =~= seq![']'] + r1);
        assert(json_list_body(p_texts(v2)) + seq![']'] + r2 =~= seq![']'] + r2);
        lemma_concat_split(seq![']'], r1, seq![']'], r2);
    } else if v2.len() == 0 {
        assert(p_texts(v2) =~= Seq::<Seq<char>>::empty());
        assert(json_list_body(p_texts(v2)) =~= Seq::<char>::empty());
        assert((json_list_body(p_texts(v2)) + seq![']'] + r2)[0] == ']');
        lemma_pair_text_head(v1[0]);
        assert(p_texts(v1)[0] == json_pair(v1[0]));
        assert(json_list_body(p_texts(v1))[0] == json_pair(v1[0])[0]);
        assert((json_list_body(p_texts(v1)) + seq![']'] + r1)[0] == '{');
        assert(false);
    } else {
        let t1 = if v1.len() == 1 {
            seq![']'] + r1
        } else {
            seq![','] + (json_list_body(p_texts(v1).drop_first()) + seq![']'] + r1)
        };
        let t2 = if v2.len() == 1 {
            seq![']'] + r2
        } else {
            seq![','] + (json_list_body(p_texts(v2).drop_first()) + seq![']'] + r2)
        };
        assert(p_texts(v1)[0] == json_pair(v1[0]));
        assert(p_texts(v2)[0] == json_pair(v2[0]));
        assert(json_list_body(p_texts(v1)) + seq![']'] + r1 =~= json_pair(v1[0]) + t1);
        assert(json_list_body(p_texts(v2)) + seq![']'] + r2 =~= json_pair(v2[0]) + t2);
        lemma_pair_unamb(v1[0], v2[0], t1, t2);
        if v1.len() == 1 && v2.len() == 1 {
            lemma_concat_split(seq![']'], r1, seq![']'], r2);
            assert forall|i: int| 0 <= i < v1.len() implies pair_like(
                #[trigger] v1[i],
                v2[i],
            ) by {
                assert(i == 0);
            }
        } else if v1.len() == 1 {
            assert(t1[0] == ']');
            assert(t2[0] == ',');
            assert(false);
        } else if v2.len() == 1 {
            assert(t1[0] == ',');
            assert(t2[0] == ']');
            assert(false);
        } else {
            lemma_concat_split(
                seq![','],
                json_list_body(p_texts(v1).drop_first()) + seq![']'] + r1,
                seq![','],
                json_list_body(p_texts(v2).drop_first()) + seq![']'] + r2,
            );
            assert(p_texts(v1).drop_first() =~= p_texts(v1.drop_first()));
            assert(p_texts(v2).drop_first() =~= p_texts(v2.drop_first()));
            lemma_options_body_unamb(v1.drop_first(), v2.drop_first(), r1, r2);
            assert forall|i: int| 0 <= i < v1.len() implies pair_like(
                #[trigger] v1[i],
                v2[i],
            ) by {
                if i > 0 {
                    assert(pair_like(v1.drop_first()[i - 1], v2.drop_first()[i - 1]));
                    assert(v1[i] == v1.drop_first()[i - 1]);
                    assert(v2[i] == v2.drop_first()[i - 1]);
                }
            }
        }
    }
}

/// A bracketed option list is read one way only.
#[verifier::rlimit(100)]
#[verifier::spinoff_prover]
proof fn lemma_options_unamb(
    v1: Seq<LinkProbabilityPair>,
    v2: Seq<LinkProbabilityPair>,
    r1: Seq<char>,
    r2: Seq<char>,
)
    requires
        json_list(p_texts(v1)) + r1 == json_list(p_texts(v2)) + r2,
    ensures
        v1.len() == v2.len(),
        forall|i: int| 0 <= i < v1.len() ==> pair_like(#[trigger] v1[i], v2[i]),
        r1 == r2,
{
    assert(json_list(p_texts(v1)) + r1 =~= seq!['['] + (json_list_body(p_texts(v1)) + seq![']']
        + r1));
    assert(json_list(p_texts(v2)) + r2 =~= seq!['['] + (json_list_body(p_texts(v2)) + seq![']']
        + r2));
    lemma_concat_split(
        seq!['['],
        json_list_body(p_texts(v1)) + seq![']'] + r1,
        seq!['['],
        json_list_body(p_texts(v2)) + seq![']'] + r2,
    );
    lemma_options_body_unamb(v1, v2, r1, r2);
}

/// A choice object is read one way only.
#[verifier::rlimit(100)]
#[verifier::spinoff_prover]
proof fn lemma_choice_unamb(c1: Choice, c2: Choice, r1: Seq<char>, r2: Seq<char>)
    requires
        json_choice(c1) + r1 == json_choice(c2) + r2,
    ensures
        choice_like(c1, c2),
        r1 == r2,
{
    let k1 = seq!['{'] + ("\"description\""@ + seq![':']);
    let k2 = seq![','] + ("\"options\""@ + seq![':']);
    let k3 = seq!['}'];
    let a1 = json_str(c1.description@) + (k2 + (json_list(p_texts(c1.options@)) + (k3 + r1)));
    let a2 = json_str(c2.description@) + (k2 + (json_list(p_texts(c2.options@)) + (k3 + r2)));
    assert(json_choice(c1) + r1 =~= k1 + a1);
    assert(json_choice(c2) + r2 =~= k1 + a2);
    lemma_concat_split(k1, a1, k1, a2);
    lemma_json_str_unamb(
        c1.description@,
        c2.description@,
        k2 + (json_list(p_texts(c1.options@)) + (k3 + r1)),
        k2 + (json_list(p_texts(c2.options@)) + (k3 + r2)),
    );
    lemma_concat_split(
        k2,
        json_list(p_texts(c1.options@)) + (k3 + r1),
        k2,
        json_list(p_texts(c2.options@)) + (k3 + r2),
    );
    lemma_options_unamb(c1.options@, c2.options@, k3 + r1, k3 + r2);
    lemma_concat_split(k3, r1, k3, r2);
}

proof fn lemma_choice_text_head(c: Choice)
    ensures
        json_choice(c).len() > 0,
        json_choice(c)[0] == '{',
{
}

/// The comma-joined bodies of two choice lists closed by their bracket are
/// read one way only.
#[verifier::rlimit(100)]
#[verifier::spinoff_prover]
proof fn lemma_choices_body_unamb(v1: Seq<Choice>, v2: Seq<Choice>, r1: Seq<char>, r2: Seq<char>)
    requires
        json_list_body(c_texts(v1)) + seq![']'] + r1 == json_list_body(c_texts(v2)) + seq![']']
            + r2,
    ensures
        v1.len() == v2.len(),
        forall|i: int| 0 <= i < v1.len() ==> choice_like(#[trigger] v1[i], v2[i]),
        r1 == r2,
    decreases v1.len(),
{
    if v1.len() == 0 {
        assert(c_texts(v1) =~= Seq::<Seq<char>>::empty());
        assert(json_list_body(c_texts(v1)) =~= Seq::<char>::empty());
        assert((json_list_body(c_texts(v1)) + seq![']'] + r1)[0] == ']');
        if v2.len() > 0 {
            lemma_choice_text_head(v2[0]);
            assert(c_texts(v2)[0] == json_choice(v2[0]));
            assert(json_list_body(c_texts(v2))[0] == json_choice(v2[0])[0]);
            assert((json_list_body(c_texts(v2)) + seq![']'] + r2)[0] == '{');
            assert(false);
        }
        assert(json_list_body(c_texts(v1)) + seq![']'] + r1 =~= seq![']'] + r1);
        assert(json_list_body(c_texts(v2)) + seq![']'] + r2 =~= seq![']'] + r2);
        lemma_concat_split(seq![']'], r1, seq![']'], r2);
    } else if v2.len() == 0 {
        assert(c_texts(v2) =~= Seq::<Seq<char>>::empty());
        assert(json_list_body(c_texts(v2)) =~= Seq::<char>::empty());
        assert((json_list_body(c_texts(v2)) + seq![']'] + r2)[0] == ']');
        lemma_choice_text_head(v1[0]);
        assert(c_texts(v1)[0] == json_choice(v1[0]));
        assert(json_list_body(c_texts(v1))[0] == json_choice(v1[0])[0]);
        assert((json_list_body(c_texts(v1)) + seq![']'] + r1)[0] == '{');
        assert(false);
    } else {
        let t1 = if v1.len() == 1 {
            seq![']'] + r1
        } else {
            seq![','] + (json_list_body(c_texts(v1).drop_first()) + seq![']'] + r1)
        };
        let t2 = if v2.len() == 1 {
            seq![']'] + r2
        } else {
            seq![','] + (json_list_body(c_texts(v2).drop_first()) + seq![']'] + r2)
        };
        assert(c_texts(v1)[0] == json_choice(v1[0]));
        assert(c_texts(v2)[0] == json_choice(v2[0]));
        assert(json_list_body(c_texts(v1)) + seq![']'] + r1 =~= json_choice(v1[0]) + t1);
        assert(json_list_body(c_texts(v2)) + seq![']'] + r2 =~= json_choice(v2[0]) + t2);
        lemma_choice_unamb(v1[0], v2[0], t1, t2);
        if v1.len() == 1 && v2.len() == 1 {
            lemma_concat_split(seq![']'], r1, seq![']'], r2);
            assert forall|i: int| 0 <= i < v1.len() implies choice_like(
                #[trigger] v1[i],
                v2[i],
            ) by {
                assert(i == 0);
            }
        } else if v1.len() == 1 {
            assert(t1[0] == ']');
            assert(t2[0] == ',');
            assert(false);
        } else if v2.len() == 1 {
            assert(t1[0] == ',');
            assert(t2[0] == ']');
            assert(false);
        } else {
            lemma_concat_split(
                seq![','],
                json_list_body(c_texts(v1).drop_first()) + seq![']'] + r1,
                seq![','],
                json_list_body(c_texts(v2).drop_first()) + seq![']'] + r2,
            );
            assert(c_texts(v1).drop_first() =~= c_texts(v1.drop_first()));
            assert(c_texts(v2).drop_first() =~= c_texts(v2.drop_first()));
            lemma_choices_body_unamb(v1.drop_first(), v2.drop_first(), r1, r2);
            assert forall|i: int| 0 <= i < v1.len() implies choice_like(
                #[trigger] v1[i],
                v2[i],
            ) by {
                if i > 0 {
                    assert(choice_like(v1.drop_first()[i - 1], v2.drop_first()[i - 1]));
                    assert(v1[i] == v1.drop_first()[i - 1]);
                    assert(v2[i] == v2.drop_first()[i - 1]);
                }
            }
        }
    }
}

/// A bracketed choice list is read one way only.
#[verifier::rlimit(100)]
#[verifier::spinoff_prover]
proof fn lemma_choices_unamb(v1: Seq<Choice>, v2: Seq<Choice>, r1: Seq<char>, r2: Seq<char>)
    requires
        json_list(c_texts(v1)) + r1 == json_list(c_texts(v2)) + r2,
    ensures
        v1.len() == v2.len(),
        forall|i: int| 0 <= i < v1.len() ==> choice_like(#[trigger] v1[i], v2[i]),
        r1 == r2,
{
    assert(json_list(c_texts(v1)) + r1 =~= seq!['['] + (json_list_body(c_texts(v1)) + seq![']']
        + r1));
    assert(json_list(c_texts(v2)) + r2 =~= seq!['['] + (json_list_body(c_texts(v2)) + seq![']']
        + r2));
    lemma_concat_split(
        seq!['['],
        json_list_body(c_texts(v1)) + seq![']'] + r1,
        seq!['['],
        json_list_body(c_texts(v2)) + seq![']'] + r2,
    );
    lemma_choices_body_unamb(v1, v2, r1, r2);
}

/// A link object is read one way only.
#[verifier::rlimit(100)]
#[verifier::spinoff_prover]
proof fn lemma_link_unamb(l1: Link, l2: Link, r1: Seq<char>, r2: Seq<char>)
    requires
        json_link(l1) + r1 == json_link(l2) + r2,
    ensures
        link_like(l1, l2),
        r1 == r2,
{
    let k1 = seq!['{'] + ("\"id\""@ + seq![':']);
    let k2 = seq![','] + ("\"description\""@ + seq![':']);
    let k3 = seq![','] + ("\"choices\""@ + seq![':']);
    let k4 = seq!['}'];
    let a1 = json_str(l1.id@) + (k2 + (json_str(l1.description@) + (k3 + (json_list(
        c_texts(l1.choices@),
    ) + (k4 + r1)))));
    let a2 = json_str(l2.id@) + (k2 + (json_str(l2.description@) + (k3 + (json_list(
        c_texts(l2.choices@),
    ) + (k4 + r2)))));
    assert(json_link(l1) + r1 =~= k1 + a1);
    assert(json_link(l2) + r2 =~= k1 + a2);
    lemma_concat_split(k1, a1, k1, a2);
    lemma_json_str_unamb(
        l1.id@,
        l2.id@,
        k2 + (json_str(l1.description@) + (k3 + (json_list(c_texts(l1.choices@)) + (k4 + r1)))),
        k2 + (json_str(l2.description@) + (k3 + (json_list(c_texts(l2.choices@)) + (k4 + r2)))),
    );
    lemma_concat_split(
        k2,
        json_str(l1.description@) + (k3 + (json_list(c_texts(l1.choices@)) + (k4 + r1))),
        k2,
        json_str(l2.description@) + (k3 + (json_list(c_texts(l2.choices@)) + (k4 + r2))),
    );
    lemma_json_str_unamb(
        l1.description@,
        l2.description@,
        k3 + (json_list(c_texts(l1.choices@)) + (k4 + r1)),
        k3 + (json_list(c_texts(l2.choices@)) + (k4 + r2)),
    );
    lemma_concat_split(
        k3,
        json_list(c_texts(l1.choices@)) + (k4 + r1),
        k3,
        json_list(c_texts(l2.choices@)) + (k4 + r2),
    );
    lemma_choices_unamb(l1.choices@, l2.choices@, k4 + r1, k4 + r2);
    lemma_concat_split(k4, r1, k4, r2);
}

proof fn lemma_link_text_head(l: Link)
    ensures
        json_link(l).len() > 0,
        json_link(l)[0] == '{',
{
}

/// The comma-joined bodies of two link lists closed by their bracket are
/// read one way only.
#[verifier::rlimit(100)]
#[verifier::spinoff_prover]
proof fn lemma_links_body_unamb(v1: Seq<Link>, v2: Seq<Link>, r1: Seq<char>, r2: Seq<char>)
    requires
        json_list_body(l_texts(v1)) + seq![']'] + r1 == json_list_body(l_texts(v2)) + seq![']']
            + r2,
    ensures
        v1.len() == v2.len(),
        forall|i: int| 0 <= i < v1.len() ==> link_like(#[trigger] v1[i], v2[i]),
        r1 == r2,
    decreases v1.len(),
{
    if v1.len() == 0 {
        assert(l_texts(v1) =~= Seq::<Seq<char>>::empty());
        assert(json_list_body(l_texts(v1)) =~= Seq::<char>::empty());
        assert((json_list_body(l_texts(v1)) + seq![']'] + r1)[0] == ']');
        if v2.len() > 0 {
            lemma_link_text_head(v2[0]);
            assert(l_texts(v2)[0] == json_link(v2[0]));
            assert(json_list_body(l_texts(v2))[0] == json_link(v2[0])[0]);
            assert((json_list_body(l_texts(v2)) + seq![']'] + r2)[0] == '{');
            assert(false);
        }
        assert(json_list_body(l_texts(v1)) + seq![']'] + r1 =~= seq![']'] + r1);
        assert(json_list_body(l_texts(v2)) + seq![']'] + r2 =~= seq![']'] + r2);
        lemma_concat_split(seq![']'], r1, seq![']'], r2);
    } else if v2.len() == 0 {
        assert(l_texts(v2) =~= Seq::<Seq<char>>::empty());
        assert(json_list_body(l_texts(v2)) =~= Seq::<char>::empty());
        assert((json_list_body(l_texts(v2)) + seq![']'] + r2)[0] == ']');
        lemma_link_text_head(v1[0]);
        assert(l_texts(v1)[0] == json_link(v1[0]));
        assert(json_list_body(l_texts(v1))[0] == json_link(v1[0])[0]);
        assert((json_list_body(l_texts(v1)) + seq![']'] + r1)[0] == '{');
        assert(false);
    } else {
        let t1 = if v1.len() == 1 {
            seq![']'] + r1
        } else {
            seq![','] + (json_list_body(l_texts(v1).drop_first()) + seq![']'] + r1)
        };
        let t2 = if v2.len() == 1 {
            seq![']'] + r2
        } else {
            seq![','] + (json_list_body(l_texts(v2).drop_first()) + seq![']'] + r2)
        };
        assert(json_list_body(l_texts(v1)) + seq![']'] + r1 =~= l_texts(v1)[0] + t1);
        assert(json_list_body(l_texts(v2)) + seq![']'] + r2 =~= l_texts(v2)[0] + t2);
        assert(l_texts(v1)[0] == json_link(v1[0]));
        assert(l_texts(v2)[0] == json_link(v2[0]));
        lemma_link_unamb(v1[0], v2[0], t1, t2);
        if v1.len() == 1 && v2.len() == 1 {
            lemma_concat_split(seq![']'], r1, seq![']'], r2);
            assert forall|i: int| 0 <= i < v1.len() implies link_like(
                #[trigger] v1[i],
                v2[i],
            ) by {
                assert(i == 0);
            }
        } else if v1.len() == 1 {
            assert(t1[0] == ']');
            assert(t2[0] == ',');
            assert(false);
        } else if v2.len() == 1 {
            assert(t1[0] == ',');
            assert(t2[0] == ']');
            assert(false);
        } else {
            lemma_concat_split(
                seq![','],
                json_list_body(l_texts(v1).drop_first()) + seq![']'] + r1,
                seq![','],
                json_list_body(l_texts(v2).drop_first()) + seq![']'] + r2,
            );
            assert(l_texts(v1).drop_first() =~= l_texts(v1.drop_first()));
            assert(l_texts(v2).drop_first() =~= l_texts(v2.drop_first()));
            lemma_links_body_unamb(v1.drop_first(), v2.drop_first(), r1, r2);
            assert forall|i: int| 0 <= i < v1.len() implies link_like(
                #[trigger] v1[i],
                v2[i],
            ) by {
                if i > 0 {
                    assert(link_like(v1.drop_first()[i - 1], v2.drop_first()[i - 1]));
                    assert(v1[i] == v1.drop_first()[i - 1]);
                    assert(v2[i] == v2.drop_first()[i - 1]);
                }
            }
        }
    }
}

/// A bracketed link list is read one way only.
#[verifier::rlimit(100)]
#[verifier::spinoff_prover]
proof fn lemma_links_unamb(v1: Seq<Link>, v2: Seq<Link>, r1: Seq<char>, r2: Seq<char>)
    requires
        json_list(l_texts(v1)) + r1 == json_list(l_texts(v2)) + r2,
    ensures
        v1.len() == v2.len(),
        forall|i: int| 0 <= i < v1.len() ==> link_like(#[trigger] v1[i], v2[i]),
        r1 == r2,
{
    assert(json_list(l_texts(v1)) + r1 =~= seq!['['] + (json_list_body(l_texts(v1)) + seq![']']
        + r1));
    assert(json_list(l_texts(v2)) + r2 =~= seq!['['] + (json_list_body(l_texts(v2)) + seq![']']
        + r2));
    lemma_concat_split(
        seq!['['],
        json_list_body(l_texts(v1)) + seq![']'] + r1,
        seq!['['],
        json_list_body(l_texts(v2)) + seq![']'] + r2,
    );
    lemma_links_body_unamb(v1, v2, r1, r2);
}

/// Law: the canonical document text determines the story. Two stories with
/// the same text agree, character for character, in every field, link,
/// choice, and option.
/// Law: the canonical document text determines the story. Two stories with
/// the same text agree, character for character, in every field, link,
/// choice, and option.
#[verifier::rlimit(100)]
#[verifier::spinoff_prover]
pub proof fn lemma_json_story_injective(a: StoryMap, b: StoryMap)
    requires
        json_story(a) == json_story(b),
    ensures
        story_like(a, b),
{
    let s19a = json_list(l_texts(a.links@)) + seq!['}'];
    let s18a = seq![':'] + s19a;
    let s17a = "\"links\""@ + s18a;
    let s16a = seq![','] + s17a;
    let s15a = json_str(a.init_link_id@) + s16a;
    let s14a = seq![':'] + s15a;
    let s13a = "\"init_link_id\""@ + s14a;
    let s12a = seq![','] + s13a;
    let s11a = json_str(a.description@) + s12a;
    let s10a = seq![':'] + s11a;
    let s9a = "\"description\""@ + s10a;
    let s8a = seq![','] + s9a;
    let s7a = json_str(a.name@) + s8a;
    let s6a = seq![':'] + s7a;
    let s5a = "\"name\""@ + s6a;
    let s4a = seq![','] + s5a;
    let s3a = json_str(a.id@) + s4a;
    let s2a = seq![':'] + s3a;
    let s1a = "\"id\""@ + s2a;
    let s19b = json_list(l_texts(b.links@)) + seq!['}'];
    let s18b = seq![':'] + s19b;
    let s17b = "\"links\""@ + s18b;
    let s16b = seq![','] + s17b;
    let s15b = json_str(b.init_link_id@) + s16b;
    let s14b = seq![':'] + s15b;
    let s13b = "\"init_link_id\""@ + s14b;
    let s12b = seq![','] + s13b;
    let s11b = json_str(b.description@) + s12b;
    let s10b = seq![':'] + s11b;
    let s9b = "\"description\""@ + s10b;
    let s8b = seq![','] + s9b;
    let s7b = json_str(b.name@) + s8b;
    let s6b = seq![':'] + s7b;
    let s5b = "\"name\""@ + s6b;
    let s4b = seq![','] + s5b;
    let s3b = json_str(b.id@) + s4b;
    let s2b = seq![':'] + s3b;
    let s1b = "\"id\""@ + s2b;
    assert(json_story(a) == seq!['{'] + s1a);
    assert(json_story(b) == seq!['{'] + s1b);
    lemma_concat_split(seq!['{'], s1a, seq!['{'], s1b);
    lemma_concat_split("\"id\""@, s2a, "\"id\""@, s2b);
    lemma_concat_split(seq![':'], s3a, seq![':'], s3b);
    lemma_json_str_unamb(a.id@, b.id@, s4a, s4b);
    lemma_concat_split(seq![','], s5a, seq![','], s5b);
    lemma_concat_split("\"name\""@, s6a, "\"name\""@, s6b);
    lemma_concat_split(seq![':'], s7a, seq![':'], s7b);
    lemma_json_str_unamb(a.name@, b.name@, s8a, s8b);
    lemma_concat_split(seq![','], s9a, seq![','], s9b);
    lemma_concat_split("\"description\""@, s10a, "\"description\""@, s10b);
    lemma_concat_split(seq![':'], s11a, seq![':'], s11b);
    lemma_json_str_unamb(a.description@, b.description@, s12a, s12b);
    lemma_concat_split(seq![','], s13a, seq![','], s13b);
    lemma_concat_split("\"init_link_id\""@, s14a, "\"init_link_id\""@, s14b);
    lemma_concat_split(seq![':'], s15a, seq![':'], s15b);
    lemma_json_str_unamb(a.init_link_id@, b.init_link_id@, s16a, s16b);
    lemma_concat_split(seq![','], s17a, seq![','], s17b);
    lemma_concat_split("\"links\""@, s18a, "\"links\""@, s18b);
    lemma_concat_split(seq![':'], s19a, seq![':'], s19b);
    lemma_links_unamb(a.links@, b.links@, seq!['}'], seq!['}']);
}

/// Law: reloading a serialized story yields a story that validates exactly
/// as the one that was serialized.
pub proof fn lemma_round_trip_validates_alike(a: StoryMap, b: StoryMap)
    requires
        json_story(a) == json_story(b),
    ensures
        story_valid(a) == story_valid(b),
{
    lemma_json_story_injective(a, b);
    lemma_like_stories_validate_alike(a, b);
}

} // verus!
