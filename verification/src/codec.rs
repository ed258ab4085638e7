use vstd::prelude::*;

use crate::identity::SigView;
use crate::identity::Signature;
use crate::layout::Layout;
use crate::state::SessionState;
use crate::state::StateView;
use vstd::string::StrSliceExecFns;
use vstd::string::StringExecFns;

verus! {

// ---------------------------------------------------------------------
// The persisted form: a single line of structured text, for example
//   {"current_layout":"Vertical","window_order":[["App","Title"]]}
// with quotes and backslashes inside names escaped by a backslash.
// `render_spec` is the canonical encoding; `parse_state_spec` accepts
// it back and rejects everything the renderer cannot have produced.
// ---------------------------------------------------------------------
/// Escape one character of a name.
pub open spec fn esc_char(c: char) -> Seq<char> {
    if c == '"' || c == '\\' {
        seq!['\\', c]
    } else {
        seq![c]
    }
}

/// Escape a whole name.
pub open spec fn esc(s: Seq<char>) -> Seq<char>
    decreases s.len(),
{
    if s.len() == 0 {
        Seq::empty()
    } else {
        esc_char(s[0]) + esc(s.drop_first())
    }
}

/// The name under which a layout is persisted.
pub open spec fn layout_name(l: Layout) -> Seq<char> {
    match l {
        Layout::Vertical => "Vertical"@,
        Layout::Horizontal => "Horizontal"@,
        Layout::Monocle => "Monocle"@,
    }
}

/// The encoding of one signature: a two-element array of strings.
pub open spec fn render_pair(sig: SigView) -> Seq<char> {
    "[\""@ + esc(sig.app_name) + "\",\""@ + esc(sig.title) + "\"]"@
}

/// The encoding of the window order: comma-separated pairs.
pub open spec fn render_order(order: Seq<SigView>) -> Seq<char>
    decreases order.len(),
{
    if order.len() == 0 {
        Seq::empty()
    } else if order.len() == 1 {
        render_pair(order[0])
    } else {
        render_pair(order[0]) + ","@ + render_order(order.drop_first())
    }
}

/// The canonical encoding of a session state.
pub open spec fn render_spec(v: StateView) -> Seq<char> {
    "{\"current_layout\":\""@ + layout_name(v.layout) + "\""@ + ",\"window_order\":["@
        + render_order(v.order) + "]}"@
}

/// Consume an exact literal from the front of the input.
pub open spec fn expect(s: Seq<char>, lit: Seq<char>) -> Option<Seq<char>> {
    if lit.len() <= s.len() && s.take(lit.len() as int) == lit {
        Some(s.skip(lit.len() as int))
    } else {
        None
    }
}

/// Consume an escaped string up to and including its closing quote,
/// returning the unescaped content and the remaining input.
pub open spec fn parse_string(s: Seq<char>) -> Option<(Seq<char>, Seq<char>)>
    decreases s.len(),
{
    if s.len() == 0 {
        None
    } else if s[0] == '"' {
        Some((Seq::empty(), s.drop_first()))
    } else if s[0] == '\\' {
        if s.len() >= 2 {
            match parse_string(s.skip(2)) {
                Some((c, r)) => Some((seq![s[1]] + c, r)),
                None => None,
            }
        } else {
            None
        }
    } else {
        match parse_string(s.drop_first()) {
            Some((c, r)) => Some((seq![s[0]] + c, r)),
            None => None,
        }
    }
}

/// Consume a layout name together with its closing quote.
pub open spec fn parse_layout(s: Seq<char>) -> Option<(Layout, Seq<char>)> {
    if expect(s, layout_name(Layout::Vertical) + seq!['"']) is Some {
        Some((Layout::Vertical, expect(s, layout_name(Layout::Vertical) + seq!['"'])->0))
    } else if expect(s, layout_name(Layout::Horizontal) + seq!['"']) is Some {
        Some((Layout::Horizontal, expect(s, layout_name(Layout::Horizontal) + seq!['"'])->0))
    } else if expect(s, layout_name(Layout::Monocle) + seq!['"']) is Some {
        Some((Layout::Monocle, expect(s, layout_name(Layout::Monocle) + seq!['"'])->0))
    } else {
        None
    }
}

/// Consume one persisted signature pair.
pub open spec fn parse_pair(s: Seq<char>) -> Option<(SigView, Seq<char>)> {
    match expect(s, "[\""@) {
        None => None,
        Some(r1) => match parse_string(r1) {
            None => None,
            Some((a, r2)) => match expect(r2, ",\""@) {
                None => None,
                Some(r3) => match parse_string(r3) {
                    None => None,
                    Some((t, r4)) => match expect(r4, "]"@) {
                        None => None,
                        Some(r5) => Some((SigView { app_name: a, title: t }, r5)),
                    },
                },
            },
        },
    }
}

/// A successful string parse consumes at least the closing quote.
proof fn lemma_parse_string_shrinks(s: Seq<char>)
    requires
        parse_string(s) is Some,
    ensures
        (parse_string(s)->0).1.len() < s.len(),
    decreases s.len(),
{
    if s.len() == 0 {
    } else if s[0] == '"' {
    } else if s[0] == '\\' {
        lemma_parse_string_shrinks(s.skip(2));
    } else {
        lemma_parse_string_shrinks(s.drop_first());
    }
}

/// A successful pair parse consumes at least one character.
proof fn lemma_parse_pair_shrinks(s: Seq<char>)
    requires
        parse_pair(s) is Some,
    ensures
        (parse_pair(s)->0).1.len() < s.len(),
{
    let r1 = expect(s, "[\""@)->0;
    lemma_parse_string_shrinks(r1);
    let r2 = (parse_string(r1)->0).1;
    let r3 = expect(r2, ",\""@)->0;
    lemma_parse_string_shrinks(r3);
    let r4 = (parse_string(r3)->0).1;
    reveal_strlit("[\"");
    reveal_strlit(",\"");
    reveal_strlit("]");
}

/// Consume the body of the window-order array, including the closing
/// bracket: either an immediate bracket or pairs separated by commas.
pub open spec fn parse_pairs(s: Seq<char>) -> Option<(Seq<SigView>, Seq<char>)>
    decreases s.len(),
    via parse_pairs_dec
{
    if s.len() > 0 && s[0] == ']' {
        Some((Seq::empty(), s.drop_first()))
    } else {
        match parse_pair(s) {
            None => None,
            Some((p, r)) => {
                if r.len() > 0 && r[0] == ',' {
                    match parse_pairs(r.drop_first()) {
                        None => None,
                        Some((ps, r2)) => Some((seq![p] + ps, r2)),
                    }
                } else if r.len() > 0 && r[0] == ']' {
                    Some((seq![p], r.drop_first()))
                } else {
                    None
                }
            },
        }
    }
}

#[via_fn]
proof fn parse_pairs_dec(s: Seq<char>) {
    if parse_pair(s) is Some {
        lemma_parse_pair_shrinks(s);
    }
}

/// Parse a whole persisted state; anything but the canonical shape is
/// rejected.
pub open spec fn parse_state_spec(s: Seq<char>) -> Option<StateView> {
    match expect(s, "{\"current_layout\":\""@) {
        None => None,
        Some(r0) => match parse_layout(r0) {
            None => None,
            Some((l, r1)) => match expect(r1, ",\"window_order\":["@) {
                None => None,
                Some(r2) => match parse_pairs(r2) {
                    None => None,
                    Some((ps, r3)) => if r3 == "}"@ {
                        Some(StateView { layout: l, order: ps })
                    } else {
                        None
                    },
                },
            },
        },
    }
}


/// A literal at the front of the input is consumed exactly.
proof fn lemma_expect_prefix(lit: Seq<char>, rest: Seq<char>)
    ensures
        expect(lit + rest, lit) == Some(rest),
{
    assert((lit + rest).take(lit.len() as int) =~= lit);
    assert((lit + rest).skip(lit.len() as int) =~= rest);
}

/// Parsing an escaped name followed by its closing quote recovers the
/// name and leaves the rest untouched.
proof fn lemma_parse_string_inverts(content: Seq<char>, rest: Seq<char>)
    ensures
        parse_string(esc(content) + (seq!['"'] + rest)) == Some((content, rest)),
    decreases content.len(),
{
    let s = esc(content) + (seq!['"'] + rest);
    if content.len() == 0 {
        assert(esc(content) =~= Seq::<char>::empty());
        assert(s =~= seq!['"'] + rest);
        assert(s[0] == '"');
        assert(s.drop_first() =~= rest);
    } else {
        let c = content[0];
        let tail = content.drop_first();
        assert(esc(content) == esc_char(c) + esc(tail));
        lemma_parse_string_inverts(tail, rest);
        if c == '"' || c == '\\' {
            assert(s[0] == '\\');
            assert(s.len() >= 2);
            assert(s[1] == c);
            assert(s.skip(2) =~= esc(tail) + (seq!['"'] + rest));
            assert(seq![c] + tail =~= content);
        } else {
            assert(s[0] == c);
            assert(s.drop_first() =~= esc(tail) + (seq!['"'] + rest));
            assert(seq![c] + tail =~= content);
        }
    }
}

/// Parsing a rendered pair recovers the signature.
proof fn lemma_parse_pair_inverts(sig: SigView, rest: Seq<char>)
    ensures
        parse_pair(render_pair(sig) + rest) == Some((sig, rest)),
{
    reveal_strlit("[\"");
    reveal_strlit("\",\"");
    reveal_strlit(",\"");
    reveal_strlit("\"]");
    reveal_strlit("]");
    let s = render_pair(sig) + rest;
    let z = esc(sig.title) + ("\"]"@ + rest);
    let x = esc(sig.app_name) + ("\",\""@ + (esc(sig.title) + ("\"]"@ + rest)));
    assert(s =~= "[\""@ + x);
    lemma_expect_prefix("[\""@, x);
    assert(x =~= esc(sig.app_name) + (seq!['"'] + (",\""@ + z)));
    lemma_parse_string_inverts(sig.app_name, ",\""@ + z);
    lemma_expect_prefix(",\""@, z);
    assert(z =~= esc(sig.title) + (seq!['"'] + ("]"@ + rest)));
    lemma_parse_string_inverts(sig.title, "]"@ + rest);
    lemma_expect_prefix("]"@, rest);
}

/// Parsing a rendered order followed by the closing bracket recovers
/// the order.
proof fn lemma_parse_pairs_inverts(order: Seq<SigView>, rest: Seq<char>)
    ensures
        parse_pairs(render_order(order) + (seq![']'] + rest)) == Some((order, rest)),
    decreases order.len(),
{
    reveal_strlit("[\"");
    reveal_strlit(",");
    let s = render_order(order) + (seq![']'] + rest);
    if order.len() == 0 {
        assert(render_order(order) =~= Seq::<char>::empty());
        assert(s =~= seq![']'] + rest);
        assert(s[0] == ']');
        assert(s.drop_first() =~= rest);
        assert(order =~= Seq::<SigView>::empty());
    } else if order.len() == 1 {
        assert(render_order(order) == render_pair(order[0]));
        let tail = seq![']'] + rest;
        lemma_parse_pair_inverts(order[0], tail);
        assert(render_pair(order[0])[0] == '[');
        assert(s[0] == '[');
        assert(s =~= render_pair(order[0]) + tail);
        assert(tail[0] == ']');
        assert(tail.drop_first() =~= rest);
        assert(seq![order[0]] =~= order);
    } else {
        let head = order[0];
        let tail_order = order.drop_first();
        let after = ","@ + (render_order(tail_order) + (seq![']'] + rest));
        assert(s =~= render_pair(head) + after);
        lemma_parse_pair_inverts(head, after);
        assert(render_pair(head)[0] == '[');
        assert(s[0] == '[');
        assert(after[0] == ',');
        assert(after.drop_first() =~= render_order(tail_order) + (seq![']'] + rest));
        lemma_parse_pairs_inverts(tail_order, rest);
        assert(seq![head] + tail_order =~= order);
    }
}

/// Parsing a rendered layout name recovers the layout.
proof fn lemma_parse_layout_inverts(l: Layout, rest: Seq<char>)
    ensures
        parse_layout(layout_name(l) + (seq!['"'] + rest)) == Some((l, rest)),
{
    reveal_strlit("Vertical");
    reveal_strlit("Horizontal");
    reveal_strlit("Monocle");
    let s = layout_name(l) + (seq!['"'] + rest);
    assert(s =~= (layout_name(l) + seq!['"']) + rest);
    lemma_expect_prefix(layout_name(l) + seq!['"'], rest);
    match l {
        Layout::Vertical => {
        },
        Layout::Horizontal => {
            let litv = layout_name(Layout::Vertical) + seq!['"'];
            if expect(s, litv) is Some {
                assert(s.take(litv.len() as int)[0] == s[0]);
                assert(false);
            }
        },
        Layout::Monocle => {
            let litv = layout_name(Layout::Vertical) + seq!['"'];
            if expect(s, litv) is Some {
                assert(s.take(litv.len() as int)[0] == s[0]);
                assert(false);
            }
            let lith = layout_name(Layout::Horizontal) + seq!['"'];
            if expect(s, lith) is Some {
                assert(s.take(lith.len() as int)[0] == s[0]);
                assert(false);
            }
        },
    }
}

/// Loading what was saved yields the state that was saved: the parser
/// inverts the renderer on every state value.
pub proof fn lemma_state_round_trip(v: StateView)
    ensures
        parse_state_spec(render_spec(v)) == Some(v),
{
    reveal_strlit("{\"current_layout\":\"");
    reveal_strlit("\"");
    reveal_strlit(",\"window_order\":[");
    reveal_strlit("]}");
    reveal_strlit("}");
    let s = render_spec(v);
    let x0 = layout_name(v.layout) + ("\""@ + (",\"window_order\":["@ + (render_order(v.order)
        + "]}"@)));
    assert(s =~= "{\"current_layout\":\""@ + x0);
    lemma_expect_prefix("{\"current_layout\":\""@, x0);
    let x1 = ",\"window_order\":["@ + (render_order(v.order) + "]}"@);
    assert(x0 =~= layout_name(v.layout) + (seq!['"'] + x1));
    lemma_parse_layout_inverts(v.layout, x1);
    let x2 = render_order(v.order) + "]}"@;
    lemma_expect_prefix(",\"window_order\":["@, x2);
    assert(x2 =~= render_order(v.order) + (seq![']'] + "}"@));
    lemma_parse_pairs_inverts(v.order, "}"@);
}


/// Relies on `String::push`: appends the given character to the end
/// of the string.
#[verifier::external_body]
fn push_char(s: &mut String, c: char)
    ensures
        final(s)@ == old(s)@.push(c),
{
    s.push(c);
}

/// Relies on `String`'s `FromIterator`: collects the characters in
/// order into a fresh string.
#[verifier::external_body]
fn chars_to_string(cs: &Vec<char>) -> (r: String)
    ensures
        r@ == cs@,
{
    cs.iter().collect()
}

/// The characters of a string slice, in order.
fn str_chars(s: &str) -> (r: Vec<char>)
    ensures
        r@ == s@,
{
    let n = s.unicode_len();
    let mut r: Vec<char> = Vec::new();
    let mut i: usize = 0;
    while i < n
        invariant
            n == s@.len(),
            0 <= i <= n,
            r@ == s@.take(i as int),
        decreases n - i,
    {
        let c = s.get_char(i);
        r.push(c);
        proof {
            assert(r@ =~= s@.take(i as int + 1));
        }
        i = i + 1;
    }
    proof {
        assert(s@.take(n as int) =~= s@);
    }
    r
}

/// Escaping distributes over concatenation.
proof fn lemma_esc_app(a: Seq<char>, b: Seq<char>)
    ensures
        esc(a + b) == esc(a) + esc(b),
    decreases a.len(),
{
    if a.len() == 0 {
        assert(a + b =~= b);
        assert(esc(a) + esc(b) =~= esc(b));
    } else {
        assert((a + b)[0] == a[0]);
        assert((a + b).len() > 0);
        assert((a + b).drop_first() =~= a.drop_first() + b);
        lemma_esc_app(a.drop_first(), b);
        assert(esc_char(a[0]) + (esc(a.drop_first()) + esc(b)) =~= (esc_char(a[0]) + esc(
            a.drop_first(),
        )) + esc(b));
    }
}

/// Append the escaped form of `s` to `out`.
fn append_escaped(out: &mut String, s: &String)
    ensures
        final(out)@ == old(out)@ + esc(s@),
{
    let n = s.as_str().unicode_len();
    let mut i: usize = 0;
    while i < n
        invariant
            n == s@.len(),
            0 <= i <= n,
            out@ == old(out)@ + esc(s@.take(i as int)),
        decreases n - i,
    {
        let c = s.as_str().get_char(i);
        if c == '"' || c == '\\' {
            push_char(out, '\\');
            push_char(out, c);
        } else {
            push_char(out, c);
        }
        proof {
            let pre = s@.take(i as int);
            assert(s@.take(i as int + 1) =~= pre + seq![s@[i as int]]);
            lemma_esc_app(pre, seq![s@[i as int]]);
            assert(seq![s@[i as int]].drop_first() =~= Seq::<char>::empty());
            assert(esc(seq![s@[i as int]]) == esc_char(s@[i as int]) + esc(Seq::<char>::empty()));
            assert(esc_char(s@[i as int]) + Seq::<char>::empty() =~= esc_char(s@[i as int]));
            assert(out@ =~= old(out)@ + esc(s@.take(i as int + 1)));
        }
        i = i + 1;
    }
    proof {
        assert(s@.take(n as int) =~= s@);
    }
}

/// Appending one more pair to a rendered order.
proof fn lemma_render_order_snoc(order: Seq<SigView>, x: SigView)
    ensures
        render_order(order.push(x)) == if order.len() == 0 {
            render_pair(x)
        } else {
            render_order(order) + ","@ + render_pair(x)
        },
    decreases order.len(),
{
    let p = order.push(x);
    if order.len() == 0 {
        assert(p.len() == 1);
        assert(p[0] == x);
    } else if order.len() == 1 {
        assert(p.len() == 2);
        assert(p[0] == order[0]);
        assert(p.drop_first() =~= seq![x]);
        assert(render_order(seq![x]) == render_pair(x));
    } else {
        assert(p[0] == order[0]);
        assert(p.drop_first() =~= order.drop_first().push(x));
        lemma_render_order_snoc(order.drop_first(), x);
        assert(render_pair(order[0]) + ","@ + (render_order(order.drop_first()) + ","@
            + render_pair(x)) =~= (render_pair(order[0]) + ","@ + render_order(order.drop_first()))
            + ","@ + render_pair(x));
    }
}

/// Encode a session state in its canonical persisted form.
pub fn render_state(state: &SessionState) -> (r: String)
    ensures
        r@ == render_spec(state@),
{
    let mut out = String::new();
    out.append("{\"current_layout\":\"");
    match state.current_layout {
        Layout::Vertical => out.append("Vertical"),
        Layout::Horizontal => out.append("Horizontal"),
        Layout::Monocle => out.append("Monocle"),
    }
    out.append("\"");
    out.append(",\"window_order\":[");
    let ghost base = out@;
    let n = state.window_order.len();
    proof {
        assert(state@.order.take(0) =~= Seq::<SigView>::empty());
        assert(base + render_order(Seq::<SigView>::empty()) =~= base);
    }
    for i in 0..n
        invariant
            n == state.window_order@.len(),
            n == state@.order.len(),
            out@ == base + render_order(state@.order.take(i as int)),
            base == "{\"current_layout\":\""@ + layout_name(state@.layout) + "\""@
                + ",\"window_order\":["@,
    {
        if i > 0 {
            out.append(",");
        }
        let ghost mid = out@;
        out.append("[\"");
        append_escaped(&mut out, &state.window_order[i].app_name);
        out.append("\",\"");
        append_escaped(&mut out, &state.window_order[i].title);
        out.append("\"]");
        proof {
            let sv = state@.order[i as int];
            assert(sv == state.window_order@[i as int]@);
            assert(out@ =~= mid + render_pair(sv));
            lemma_render_order_snoc(state@.order.take(i as int), sv);
            assert(state@.order.take(i as int + 1) =~= state@.order.take(i as int).push(sv));
            if i > 0 {
                assert(mid =~= base + render_order(state@.order.take(i as int)) + ","@);
                assert(out@ =~= base + render_order(state@.order.take(i as int + 1)));
            } else {
                assert(state@.order.take(0) =~= Seq::<SigView>::empty());
                assert(mid =~= base);
                assert(out@ =~= base + render_order(state@.order.take(i as int + 1)));
            }
        }
    }
    out.append("]}");
    proof {
        assert(state@.order.take(n as int) =~= state@.order);
        assert(out@ =~= render_spec(state@));
    }
    out
}


/// Consume the literal `lit` at position `i`, returning the position
/// just past it.
fn expect_at(cs: &Vec<char>, i: usize, lit: &str) -> (r: Option<usize>)
    requires
        i <= cs@.len(),
    ensures
        match r {
            Some(j) => {
                &&& i <= j <= cs@.len()
                &&& expect(cs@.skip(i as int), lit@) == Some(cs@.skip(j as int))
            },
            None => expect(cs@.skip(i as int), lit@) is None,
        },
{
    let llen = lit.unicode_len();
    if cs.len() - i < llen {
        return None;
    }
    let mut k: usize = 0;
    while k < llen
        invariant
            cs@.len() <= usize::MAX,
            i <= cs@.len(),
            llen == lit@.len(),
            llen <= cs@.len() - i,
            0 <= k <= llen,
            forall|t: int| 0 <= t < k ==> cs@[i + t] == lit@[t],
        decreases llen - k,
    {
        if cs[i + k] != lit.get_char(k) {
            proof {
                let sfx = cs@.skip(i as int);
                if expect(sfx, lit@) is Some {
                    assert(sfx.take(llen as int)[k as int] == cs@[i as int + k as int]);
                }
            }
            return None;
        }
        k = k + 1;
    }
    proof {
        let sfx = cs@.skip(i as int);
        assert(sfx.take(llen as int) =~= lit@);
        assert(sfx.skip(llen as int) =~= cs@.skip(i as int + llen as int));
    }
    Some(i + llen)
}

/// Consume an escaped string starting at `i`, returning its content
/// and the position just past the closing quote.
fn parse_string_at(cs: &Vec<char>, i: usize) -> (r: Option<(Vec<char>, usize)>)
    requires
        i <= cs@.len(),
    ensures
        match r {
            Some(p) => {
                &&& i < p.1 <= cs@.len()
                &&& parse_string(cs@.skip(i as int)) == Some((p.0@, cs@.skip(p.1 as int)))
            },
            None => parse_string(cs@.skip(i as int)) is None,
        },
    decreases cs@.len() - i,
{
    proof {
        assert(cs@.skip(i as int).len() == cs@.len() - i);
    }
    if i >= cs.len() {
        return None;
    }
    let c = cs[i];
    proof {
        assert(cs@.skip(i as int)[0] == cs@[i as int]);
    }
    if c == '"' {
        proof {
            assert(cs@.skip(i as int).drop_first() =~= cs@.skip(i as int + 1));
        }
        let content: Vec<char> = Vec::new();
        proof {
            assert(content@ =~= Seq::<char>::empty());
        }
        return Some((content, i + 1));
    }
    if c == '\\' {
        if cs.len() - i < 2 {
            return None;
        }
        let c2 = cs[i + 1];
        proof {
            assert(cs@.skip(i as int)[1] == cs@[i as int + 1]);
            assert(cs@.skip(i as int).skip(2) =~= cs@.skip(i as int + 2));
        }
        match parse_string_at(cs, i + 2) {
            Some((mut content, j)) => {
                let ghost tail = content@;
                content.insert(0, c2);
                proof {
                    assert(content@ =~= seq![cs@[i as int + 1]] + tail);
                }
                Some((content, j))
            },
            None => None,
        }
    } else {
        proof {
            assert(cs@.skip(i as int).drop_first() =~= cs@.skip(i as int + 1));
        }
        match parse_string_at(cs, i + 1) {
            Some((mut content, j)) => {
                let ghost tail = content@;
                content.insert(0, c);
                proof {
                    assert(content@ =~= seq![cs@[i as int]] + tail);
                }
                Some((content, j))
            },
            None => None,
        }
    }
}

/// Consume a layout name and its closing quote starting at `i`.
fn parse_layout_at(cs: &Vec<char>, i: usize) -> (r: Option<(Layout, usize)>)
    requires
        i <= cs@.len(),
    ensures
        match r {
            Some(p) => {
                &&& i <= p.1 <= cs@.len()
                &&& parse_layout(cs@.skip(i as int)) == Some((p.0, cs@.skip(p.1 as int)))
            },
            None => parse_layout(cs@.skip(i as int)) is None,
        },
{
    proof {
        reveal_strlit("Vertical");
        reveal_strlit("Vertical\"");
        reveal_strlit("Horizontal");
        reveal_strlit("Horizontal\"");
        reveal_strlit("Monocle");
        reveal_strlit("Monocle\"");
        assert("Vertical\""@ =~= layout_name(Layout::Vertical) + seq!['"']);
        assert("Horizontal\""@ =~= layout_name(Layout::Horizontal) + seq!['"']);
        assert("Monocle\""@ =~= layout_name(Layout::Monocle) + seq!['"']);
    }
    match expect_at(cs, i, "Vertical\"") {
        Some(j) => {
            return Some((Layout::Vertical, j));
        },
        None => {},
    }
    match expect_at(cs, i, "Horizontal\"") {
        Some(j) => {
            return Some((Layout::Horizontal, j));
        },
        None => {},
    }
    match expect_at(cs, i, "Monocle\"") {
        Some(j) => {
            return Some((Layout::Monocle, j));
        },
        None => {},
    }
    None
}

/// Consume one persisted signature pair starting at `i`.
fn parse_pair_at(cs: &Vec<char>, i: usize) -> (r: Option<(Signature, usize)>)
    requires
        i <= cs@.len(),
    ensures
        match r {
            Some(p) => {
                &&& i < p.1 <= cs@.len()
                &&& parse_pair(cs@.skip(i as int)) == Some((p.0@, cs@.skip(p.1 as int)))
            },
            None => parse_pair(cs@.skip(i as int)) is None,
        },
{
    let i1 = match expect_at(cs, i, "[\"") {
        Some(j) => j,
        None => {
            return None;
        },
    };
    let (a, i2) = match parse_string_at(cs, i1) {
        Some(p) => p,
        None => {
            return None;
        },
    };
    let i3 = match expect_at(cs, i2, ",\"") {
        Some(j) => j,
        None => {
            return None;
        },
    };
    let (t, i4) = match parse_string_at(cs, i3) {
        Some(p) => p,
        None => {
            return None;
        },
    };
    let i5 = match expect_at(cs, i4, "]") {
        Some(j) => j,
        None => {
            return None;
        },
    };
    let sig = Signature::new(chars_to_string(&a), chars_to_string(&t));
    Some((sig, i5))
}

/// Consume the window-order array body starting at `i`, including the
/// closing bracket.
fn parse_pairs_at(cs: &Vec<char>, i: usize) -> (r: Option<(Vec<Signature>, usize)>)
    requires
        i <= cs@.len(),
    ensures
        match r {
            Some(p) => {
                &&& i < p.1 <= cs@.len()
                &&& parse_pairs(cs@.skip(i as int)) == Some((
                    crate::reconcile::views(p.0@),
                    cs@.skip(p.1 as int),
                ))
            },
            None => parse_pairs(cs@.skip(i as int)) is None,
        },
    decreases cs@.len() - i,
{
    proof {
        assert(cs@.skip(i as int).len() == cs@.len() - i);
        if i < cs@.len() {
            assert(cs@.skip(i as int)[0] == cs@[i as int]);
        }
    }
    if i < cs.len() {
        let c = cs[i];
        if c == ']' {
            proof {
                assert(cs@.skip(i as int).drop_first() =~= cs@.skip(i as int + 1));
                assert(crate::reconcile::views(Seq::<Signature>::empty()) =~= Seq::<
                    SigView,
                >::empty());
            }
            let v: Vec<Signature> = Vec::new();
            proof {
                assert(v@ =~= Seq::<Signature>::empty());
            }
            return Some((v, i + 1));
        }
    }
    let (sig, j) = match parse_pair_at(cs, i) {
        Some(p) => p,
        None => {
            return None;
        },
    };
    proof {
        assert(cs@.skip(j as int).len() == cs@.len() - j);
        if j < cs@.len() {
            assert(cs@.skip(j as int)[0] == cs@[j as int]);
        }
    }
    if j < cs.len() && cs[j] == ',' {
        proof {
            assert(cs@.skip(j as int).drop_first() =~= cs@.skip(j as int + 1));
        }
        match parse_pairs_at(cs, j + 1) {
            Some((mut sigs, j2)) => {
                let ghost tail = sigs@;
                sigs.insert(0, sig);
                proof {
                    assert(crate::reconcile::views(sigs@) =~= seq![sig@]
                        + crate::reconcile::views(tail));
                }
                Some((sigs, j2))
            },
            None => None,
        }
    } else if j < cs.len() && cs[j] == ']' {
        proof {
            assert(cs@.skip(j as int).drop_first() =~= cs@.skip(j as int + 1));
        }
        let mut v: Vec<Signature> = Vec::new();
        v.push(sig);
        proof {
            assert(crate::reconcile::views(v@) =~= seq![sig@]);
        }
        Some((v, j + 1))
    } else {
        None
    }
}

/// Decode a persisted state; anything but the canonical encoding is
/// rejected.
pub fn parse_state(s: &str) -> (r: Option<SessionState>)
    ensures
        match r {
            Some(st) => parse_state_spec(s@) == Some(st@),
            None => parse_state_spec(s@) is None,
        },
{
    let cs = str_chars(s);
    proof {
        assert(cs@.skip(0) =~= cs@);
    }
    let i0 = match expect_at(&cs, 0, "{\"current_layout\":\"") {
        Some(j) => j,
        None => {
            return None;
        },
    };
    let (l, i1) = match parse_layout_at(&cs, i0) {
        Some(p) => p,
        None => {
            return None;
        },
    };
    let i2 = match expect_at(&cs, i1, ",\"window_order\":[") {
        Some(j) => j,
        None => {
            return None;
        },
    };
    let (sigs, i3) = match parse_pairs_at(&cs, i2) {
        Some(p) => p,
        None => {
            return None;
        },
    };
    proof {
        reveal_strlit("}");
        assert(cs@.skip(i3 as int).len() == cs@.len() - i3);
    }
    if cs.len() - i3 == 1 && cs[i3] == '}' {
        proof {
            assert(cs@.skip(i3 as int)[0] == cs@[i3 as int]);
            assert(cs@.skip(i3 as int) =~= "}"@);
        }
        Some(SessionState { current_layout: l, window_order: sigs })
    } else {
        proof {
            if cs@.skip(i3 as int) == "}"@ {
                assert(cs@.skip(i3 as int).len() == 1);
                assert(cs@.skip(i3 as int)[0] == cs@[i3 as int]);
                assert(cs@[i3 as int] == '}');
            }
        }
        None
    }
}

/// Decode a persisted state, falling back to the default state when
/// the text is missing its canonical shape; never an error.
pub fn load_state_str(s: &str) -> (r: SessionState)
    ensures
        match parse_state_spec(s@) {
            Some(v) => r@ == v,
            None => r@.layout == Layout::Vertical && r@.order.len() == 0,
        },
{
    match parse_state(s) {
        Some(st) => st,
        None => SessionState::default(),
    }
}

} // verus!
