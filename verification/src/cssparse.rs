//! Stylesheet parser: selectors, declarations and rules, with the same
//! fatal-on-malformed policy as the markup parser. The value grammar is:
//! a keyword identifier, a whole number followed by `px`, or `#` followed
//! by six hexadecimal digits.
//!
//! As in the markup parser, the grammar is written down as
//! specification functions over the character sequence, and each
//! parsing function is proved to return what the grammar says,
//! succeeding if and only if it does; a rule's selector list is in
//! addition sorted descending by specificity, so its order is related
//! to the parsed list by `same_entries`.

use vstd::prelude::*;
use vstd::string::*;
use crate::chars::{is_digit, is_ident_char, views_of};
use crate::css::{
    spec_le, spec_specificity, Color, Declaration, Rule, Selector, SimpleSelector, Specificity,
    Stylesheet, Unit, Value, ValueV, specificity_lt,
};
use crate::error::ParseError;
use crate::markup::{run_end, spec_ws, step_to, CharClass, Parser};
use crate::style::{lemma_insert_same_entries, lemma_same_entries_intro, same_entries};

verus! {

/// The constraints a selector carries, as plain data: tag name, id,
/// class names.
pub type SelView = (Option<Seq<char>>, Option<Seq<char>>, Seq<Seq<char>>);

/// The view of an optional string.
pub open spec fn opt_view(o: Option<String>) -> Option<Seq<char>> {
    match o {
        Some(t) => Some(t@),
        None => None,
    }
}

/// The constraints of a selector.
pub open spec fn sel_view(sel: Selector) -> SelView {
    match sel {
        Selector::Simple(ss) => (opt_view(ss.tag_name), opt_view(ss.id), views_of(ss.class@)),
    }
}

/// The constraints of a selector list, in order.
pub open spec fn sel_views(sels: Seq<Selector>) -> Seq<SelView>
    decreases sels,
{
    if sels.len() == 0 {
        Seq::empty()
    } else {
        sel_views(sels.subrange(0, sels.len() - 1)).push(sel_view(sels[sels.len() - 1]))
    }
}

/// Appending a selector appends its constraints.
pub proof fn lemma_sel_views_push(sels: Seq<Selector>, sel: Selector)
    ensures
        sel_views(sels.push(sel)) == sel_views(sels).push(sel_view(sel)),
{
    assert(sels.push(sel).subrange(0, sels.len() as int) =~= sels);
    assert(sels.push(sel)[sels.len() as int] == sel);
}

/// The constraints of a selector list are its pointwise constraints.
pub proof fn lemma_sel_views_index(sels: Seq<Selector>)
    ensures
        sel_views(sels).len() == sels.len(),
        forall|i: int| 0 <= i < sels.len() ==> sel_views(sels)[i] == sel_view(sels[i]),
    decreases sels,
{
    if sels.len() > 0 {
        lemma_sel_views_index(sels.subrange(0, sels.len() - 1));
    }
}

/// Selector lists with the same entries have the same constraints.
proof fn lemma_same_entries_views(a: Seq<Selector>, b: Seq<Selector>)
    requires
        same_entries(a, b),
    ensures
        same_entries(sel_views(a), sel_views(b)),
{
    reveal(same_entries);
    lemma_sel_views_index(a);
    lemma_sel_views_index(b);
    assert forall|k: int| 0 <= k < sel_views(b).len() implies sel_views(a).contains(
        #[trigger] sel_views(b)[k],
    ) by {
        let k0 = choose|k0: int| #![trigger a[k0]] 0 <= k0 < a.len() && a[k0] == b[k];
        assert(sel_views(a)[k0] == sel_views(b)[k]);
    }
    assert forall|k0: int| 0 <= k0 < sel_views(a).len() implies sel_views(b).contains(
        #[trigger] sel_views(a)[k0],
    ) by {
        let k = choose|k: int| #![trigger b[k]] 0 <= k < b.len() && b[k] == a[k0];
        assert(sel_views(b)[k] == sel_views(a)[k0]);
    }
    lemma_same_entries_intro(sel_views(a), sel_views(b));
}

/// The grammar of one simple selector from `pos` on, with the tag and
/// id constraints read so far: `#` introduces the id, `*` adds nothing,
/// an identifier character begins the tag name, and any other character
/// — or the end of input — ends the selector. A later id or tag name
/// replaces an earlier one.
pub open spec fn spec_simple_selector(
    s: Seq<char>,
    pos: int,
    tag: Option<Seq<char>>,
    id: Option<Seq<char>>,
) -> (Option<Seq<char>>, Option<Seq<char>>, int)
    decreases s.len() - pos,
{
    if pos < 0 || pos >= s.len() {
        (tag, id, pos)
    } else if s[pos] == '#' {
        let e = step_to(s, pos, run_end(s, pos + 1, CharClass::Ident));
        spec_simple_selector(s, e, tag, Some(s.subrange(pos + 1, e)))
    } else if s[pos] == '*' {
        spec_simple_selector(s, pos + 1, tag, id)
    } else if is_ident_char(s[pos]) {
        let e = step_to(s, pos, run_end(s, pos, CharClass::Ident));
        spec_simple_selector(s, e, Some(s.subrange(pos, e)), id)
    } else {
        (tag, id, pos)
    }
}

/// The grammar of a comma-separated selector list from `pos` on,
/// appended to `acc` in source order: it ends before a `{`, and any
/// other character after a selector — or the end of input — parses to
/// nothing.
pub open spec fn spec_selector_list(s: Seq<char>, pos: int, acc: Seq<SelView>) -> Option<
    (Seq<SelView>, int),
>
    decreases s.len() - pos,
{
    if pos < 0 || pos > s.len() {
        None
    } else {
        let (t, i, e0) = spec_simple_selector(s, pos, None, None);
        let e = step_to(s, pos - 1, e0);
        let acc2 = acc.push((t, i, Seq::empty()));
        let ws = spec_ws(s, e);
        if ws >= s.len() {
            None
        } else if s[ws] == ',' {
            spec_selector_list(s, spec_ws(s, ws + 1), acc2)
        } else if s[ws] == '{' {
            Some((acc2, ws))
        } else {
            None
        }
    }
}

/// The value of a digit run read left to right onto `v`, stopping at
/// the first non-digit; a value that would not fit an unsigned 64-bit
/// number parses to nothing.
pub open spec fn spec_number_acc(s: Seq<char>, pos: int, v: int) -> Option<(int, int)>
    decreases s.len() - pos,
{
    if pos < 0 || pos >= s.len() || !is_digit(s[pos]) {
        Some((v, pos))
    } else if v * 10 + (s[pos] as u32 - 48) > u64::MAX {
        None
    } else {
        spec_number_acc(s, pos + 1, v * 10 + (s[pos] as u32 - 48))
    }
}

/// The value of a hexadecimal digit, or a negative number for any other
/// character.
pub open spec fn hex_val(c: char) -> int {
    let u = c as u32;
    if 48 <= u <= 57 {
        u - 48
    } else if 97 <= u <= 102 {
        u - 87
    } else if 65 <= u <= 70 {
        u - 55
    } else {
        -1
    }
}

/// The grammar of two hexadecimal digits at `pos`: one channel value.
pub open spec fn spec_hex_pair(s: Seq<char>, pos: int) -> Option<(u8, int)> {
    if 0 <= pos && pos + 2 <= s.len() && hex_val(s[pos]) >= 0 && hex_val(s[pos + 1]) >= 0 {
        Some(((hex_val(s[pos]) * 16 + hex_val(s[pos + 1])) as u8, pos + 2))
    } else {
        None
    }
}

/// The grammar of one value at `pos`: a digit begins a whole number
/// that must be followed by `px`; `#` begins six hexadecimal digits,
/// one color with full opacity; an identifier character begins a
/// keyword; anything else parses to nothing.
pub open spec fn spec_value(s: Seq<char>, pos: int) -> Option<(ValueV, int)> {
    if pos < 0 || pos >= s.len() {
        None
    } else if is_digit(s[pos]) {
        match spec_number_acc(s, pos, 0) {
            None => None,
            Some((v, de)) => {
                if de + 2 <= s.len() && s[de] == 'p' && s[de + 1] == 'x' {
                    Some((ValueV::Length(v as u64, Unit::Px), de + 2))
                } else {
                    None
                }
            },
        }
    } else if s[pos] == '#' {
        match spec_hex_pair(s, pos + 1) {
            None => None,
            Some((r, p1)) => match spec_hex_pair(s, p1) {
                None => None,
                Some((g, p2)) => match spec_hex_pair(s, p2) {
                    None => None,
                    Some((b, p3)) => Some(
                        (ValueV::ColorValue(Color { r, g, b, a: 255 }), p3),
                    ),
                },
            },
        }
    } else if is_ident_char(s[pos]) {
        let e = step_to(s, pos, run_end(s, pos, CharClass::Ident));
        Some((ValueV::Keyword(s.subrange(pos, e)), e))
    } else {
        None
    }
}

/// A declaration's content: its property name and its value.
pub type DeclV = (Seq<char>, ValueV);

/// The contents of a declaration list, in order.
pub open spec fn decl_views(ds: Seq<Declaration>) -> Seq<DeclV>
    decreases ds,
{
    if ds.len() == 0 {
        Seq::empty()
    } else {
        decl_views(ds.subrange(0, ds.len() - 1)).push(
            (ds[ds.len() - 1].name@, ds[ds.len() - 1].value@),
        )
    }
}

/// Appending a declaration appends its content.
pub proof fn lemma_decl_views_push(ds: Seq<Declaration>, d: Declaration)
    ensures
        decl_views(ds.push(d)) == decl_views(ds).push((d.name@, d.value@)),
{
    assert(ds.push(d).subrange(0, ds.len() as int) =~= ds);
    assert(ds.push(d)[ds.len() as int] == d);
}

/// The grammar of the declarations after the `{`, appended to `acc` in
/// source order: whitespace, then either the closing `}` — consumed —
/// or `name: value;` with a nonempty identifier name.
pub open spec fn spec_declarations(s: Seq<char>, pos: int, acc: Seq<DeclV>) -> Option<
    (Seq<DeclV>, int),
>
    decreases s.len() - pos,
{
    if pos < 0 || pos > s.len() {
        None
    } else {
        let ws = spec_ws(s, pos);
        if ws >= s.len() {
            None
        } else if s[ws] == '}' {
            Some((acc, ws + 1))
        } else {
            let ne0 = run_end(s, ws, CharClass::Ident);
            if ne0 <= ws {
                None
            } else {
                let ne = step_to(s, ws, ne0);
                let name = s.subrange(ws, ne);
                let ws2 = spec_ws(s, ne);
                if ws2 >= s.len() || s[ws2] != ':' {
                    None
                } else {
                    let vs = spec_ws(s, ws2 + 1);
                    match spec_value(s, vs) {
                        None => None,
                        Some((vv, ve0)) => {
                            let ve = step_to(s, vs, ve0);
                            let ws3 = spec_ws(s, ve);
                            if ws3 >= s.len() || s[ws3] != ';' {
                                None
                            } else {
                                spec_declarations(s, ws3 + 1, acc.push((name, vv)))
                            }
                        },
                    }
                }
            }
        }
    }
}

/// The grammar of a rule body at `pos`: `{`, declarations, `}`.
pub open spec fn spec_decl_block(s: Seq<char>, pos: int) -> Option<(Seq<DeclV>, int)> {
    if 0 <= pos < s.len() && s[pos] == '{' {
        spec_declarations(s, pos + 1, Seq::empty())
    } else {
        None
    }
}

/// Where one whole rule starting at `pos` ends, if its selector list
/// and body follow the grammar.
pub open spec fn spec_rule_end(s: Seq<char>, pos: int) -> Option<int> {
    match spec_selector_list(s, pos, Seq::empty()) {
        None => None,
        Some((_, brace)) => match spec_decl_block(s, brace) {
            None => None,
            Some((_, e)) => Some(e),
        },
    }
}

/// Whether the text from `pos` on is a well-formed sequence of rules,
/// whitespace between them, up to the end of input.
pub open spec fn spec_sheet_ok(s: Seq<char>, pos: int) -> bool
    decreases s.len() - pos,
{
    if pos < 0 || pos > s.len() {
        false
    } else {
        let ws = spec_ws(s, pos);
        if ws >= s.len() {
            true
        } else {
            match spec_rule_end(s, ws) {
                None => false,
                Some(e) => spec_sheet_ok(s, step_to(s, ws, e)),
            }
        }
    }
}

/// Descending order of selectors by specificity.
pub open spec fn sel_ge(a: Selector, b: Selector) -> bool {
    spec_le(spec_specificity(b), spec_specificity(a))
}

/// Inserting a selector at the boundary found by the scan keeps the
/// list sorted descending by specificity.
proof fn lemma_sel_insert_keeps_sorted(out: Seq<Selector>, o: Seq<Selector>, pos: int, x: Selector)
    requires
        0 <= pos <= out.len(),
        o == out.insert(pos, x),
        forall|a: int, b: int| 0 <= a <= b < out.len() ==> sel_ge(out[a], out[b]),
        forall|a: int| 0 <= a < pos ==> sel_ge(out[a], x),
        pos < out.len() ==> !sel_ge(out[pos], x),
    ensures
        forall|a: int, b: int| 0 <= a <= b < o.len() ==> sel_ge(o[a], o[b]),
{
    out.insert_ensures(pos, x);
    assert(pos < out.len() ==> sel_ge(x, out[pos]));
    assert forall|a: int, b: int| 0 <= a <= b < o.len() implies sel_ge(o[a], o[b]) by {
        if b < pos {
            assert(sel_ge(out[a], out[b]));
        } else if a < pos && b == pos {
            assert(sel_ge(out[a], x));
        } else if a < pos && b > pos {
            assert(sel_ge(out[a], out[b - 1]));
        } else if a == pos && b > pos {
            assert(sel_ge(x, out[pos]));
            assert(sel_ge(out[pos], out[b - 1]));
        } else if a > pos {
            assert(sel_ge(out[a - 1], out[b - 1]));
        }
    }
}

/// Whether the specificity of `a` is at least `sx`.
fn sel_at_least(a: &Selector, sx: &Specificity) -> (r: bool)
    ensures
        r == spec_le(*sx, spec_specificity(*a)),
{
    !specificity_lt(&a.specificity(), sx)
}

/// Sorts selectors descending by specificity, so that scanning a rule's
/// list in order meets its most specific matching selector first.
fn sort_selectors(v: Vec<Selector>) -> (out: Vec<Selector>)
    ensures
        forall|a: int, b: int| 0 <= a <= b < out@.len() ==> sel_ge(out@[a], out@[b]),
        same_entries(v@, out@),
        out@.len() == v@.len(),
{
    let ghost input = v@;
    let mut v = v;
    let mut out: Vec<Selector> = Vec::new();
    proof {
        reveal(same_entries);
        assert(same_entries(input.subrange(0, 0), out@));
    }
    let n = v.len();
    let mut i: usize = 0;
    while i < n
        invariant
            i <= n,
            n == input.len(),
            v@ == input.subrange(i as int, n as int),
            forall|a: int, b: int| 0 <= a <= b < out@.len() ==> sel_ge(out@[a], out@[b]),
            same_entries(input.subrange(0, i as int), out@),
            out@.len() == i,
        decreases n - i,
    {
        let x = v.remove(0);
        proof {
            assert(x == input[i as int]);
            assert(v@ =~= input.subrange(i + 1 as int, n as int));
        }
        let sx = x.specificity();
        let m = out.len();
        let mut pos: usize = 0;
        while pos < m && sel_at_least(&out[pos], &sx)
            invariant
                pos <= m,
                m == out@.len(),
                sx == spec_specificity(x),
                forall|a: int| 0 <= a < pos ==> sel_ge(out@[a], x),
            decreases m - pos,
        {
            pos += 1;
        }
        let ghost out_before = out@;
        out.insert(pos, x);
        proof {
            lemma_sel_insert_keeps_sorted(out_before, out@, pos as int, x);
            lemma_insert_same_entries(input, out_before, out@, i as int, pos as int, x);
        }
        i += 1;
    }
    proof {
        assert(input.subrange(0, n as int) =~= input);
    }
    out
}

impl Parser {
    /// Consumes the maximal run of identifier characters at the cursor.
    pub fn parse_identifier(&mut self) -> (r: String)
        requires
            old(self).wf(),
        ensures
            final(self).wf(),
            final(self).input == old(self).input,
            old(self).pos <= final(self).pos,
            final(self).pos == run_end(old(self).input@, old(self).pos as int, CharClass::Ident),
            forall|k: int|
                old(self).pos <= k < final(self).pos ==> is_ident_char(old(self).input@[k]),
            final(self).pos < old(self).input@.len() ==> !is_ident_char(
                old(self).input@[final(self).pos as int],
            ),
            r@ == old(self).input@.subrange(old(self).pos as int, final(self).pos as int),
    {
        self.consume_while(CharClass::Ident)
    }

    /// Parses one simple selector, exactly as `spec_simple_selector`
    /// reads it; the parsed class set is empty, the class syntax being
    /// an extension point the grammar stops at.
    pub fn parse_simple_selector(&mut self) -> (r: SimpleSelector)
        requires
            old(self).wf(),
        ensures
            final(self).wf(),
            final(self).input == old(self).input,
            old(self).pos <= final(self).pos,
            ({
                let (t, i, e) = spec_simple_selector(
                    old(self).input@,
                    old(self).pos as int,
                    None,
                    None,
                );
                &&& opt_view(r.tag_name) == t
                &&& opt_view(r.id) == i
                &&& r.class@.len() == 0
                &&& final(self).pos == e
            }),
    {
        let ghost s = old(self).input@;
        let mut selector = SimpleSelector { tag_name: None, id: None, class: Vec::new() };
        loop
            invariant
                self.wf(),
                self.input == old(self).input,
                s == old(self).input@,
                old(self).pos <= self.pos,
                selector.class@.len() == 0,
                spec_simple_selector(s, old(self).pos as int, None, None)
                    == spec_simple_selector(
                    s,
                    self.pos as int,
                    opt_view(selector.tag_name),
                    opt_view(selector.id),
                ),
            ensures
                self.wf(),
                self.input == old(self).input,
                old(self).pos <= self.pos,
                selector.class@.len() == 0,
                spec_simple_selector(s, old(self).pos as int, None, None) == (
                    opt_view(selector.tag_name),
                    opt_view(selector.id),
                    self.pos as int,
                ),
            decreases self.input@.len() - self.pos,
        {
            let ghost p_it = self.pos as int;
            if self.eof() {
                proof {
                    assert(spec_simple_selector(
                        s,
                        p_it,
                        opt_view(selector.tag_name),
                        opt_view(selector.id),
                    ) == (opt_view(selector.tag_name), opt_view(selector.id), p_it));
                }
                break;
            }
            let c = self.next_char();
            if c == '#' {
                let _ = self.consume_char();
                let ident = self.parse_identifier();
                proof {
                    assert(step_to(s, p_it, self.pos as int) == self.pos as int);
                }
                selector.id = Some(ident);
            } else if c == '*' {
                let _ = self.consume_char();
            } else if crate::chars::is_ident_char_exec(c) {
                let ident = self.parse_identifier();
                proof {
                    assert(step_to(s, p_it, self.pos as int) == self.pos as int);
                }
                selector.tag_name = Some(ident);
            } else {
                proof {
                    assert(spec_simple_selector(
                        s,
                        p_it,
                        opt_view(selector.tag_name),
                        opt_view(selector.id),
                    ) == (opt_view(selector.tag_name), opt_view(selector.id), p_it));
                }
                break;
            }
        }
        selector
    }

    /// Parses a comma-separated selector list up to the `{` that opens
    /// the rule body — exactly the list `spec_selector_list` reads, in
    /// some order — and sorts it descending by specificity. Any other
    /// character after a selector, or the end of input, is malformed.
    pub fn parse_selector(&mut self) -> (r: Result<Vec<Selector>, ParseError>)
        requires
            old(self).wf(),
        ensures
            final(self).wf(),
            final(self).input == old(self).input,
            old(self).pos <= final(self).pos,
            r matches Err(e) ==> e == ParseError::MalformedStylesheet,
            r is Err ==> spec_selector_list(old(self).input@, old(self).pos as int, Seq::empty())
                is None,
            r matches Ok(sels) ==> {
                &&& spec_selector_list(old(self).input@, old(self).pos as int, Seq::empty())
                    matches Some(pr) && same_entries(pr.0, sel_views(sels@)) && sels@.len()
                    == pr.0.len() && final(self).pos == pr.1
                &&& forall|a: int, b: int| 0 <= a <= b < sels@.len() ==> sel_ge(sels@[a], sels@[b])
                &&& sels@.len() >= 1
                &&& final(self).pos < old(self).input@.len() && old(
                    self,
                ).input@[final(self).pos as int] == '{'
            },
    {
        let ghost s = old(self).input@;
        let mut selectors: Vec<Selector> = Vec::new();
        proof {
            assert(sel_views(selectors@) =~= Seq::<SelView>::empty());
        }
        loop
            invariant_except_break
                spec_selector_list(s, old(self).pos as int, Seq::empty()) == spec_selector_list(
                    s,
                    self.pos as int,
                    sel_views(selectors@),
                ),
            invariant
                self.wf(),
                self.input == old(self).input,
                s == old(self).input@,
                old(self).pos <= self.pos,
            ensures
                self.wf(),
                self.input == old(self).input,
                old(self).pos <= self.pos,
                selectors@.len() >= 1,
                self.pos < self.input@.len() && self.input@[self.pos as int] == '{',
                spec_selector_list(s, old(self).pos as int, Seq::empty()) == Some(
                    (sel_views(selectors@), self.pos as int),
                ),
            decreases self.input@.len() - self.pos,
        {
            let ghost p_it = self.pos as int;
            let ghost sels_before = selectors@;
            let simple = self.parse_simple_selector();
            proof {
                assert(step_to(s, p_it - 1, self.pos as int) == self.pos as int);
                lemma_sel_views_push(sels_before, Selector::Simple(simple));
                assert(views_of(simple.class@) =~= Seq::<Seq<char>>::empty());
            }
            selectors.push(Selector::Simple(simple));
            self.consume_whitespace();
            let ghost wsp = self.pos as int;
            if self.eof() {
                proof {
                    assert(spec_selector_list(s, p_it, sel_views(sels_before)) is None);
                }
                return Err(ParseError::MalformedStylesheet);
            }
            let c = self.next_char();
            if c == ',' {
                let _ = self.consume_char();
                self.consume_whitespace();
                proof {
                    assert(spec_selector_list(s, p_it, sel_views(sels_before))
                        == spec_selector_list(s, self.pos as int, sel_views(selectors@)));
                }
            } else if c == '{' {
                proof {
                    assert(spec_selector_list(s, p_it, sel_views(sels_before)) == Some(
                        (sel_views(selectors@), wsp),
                    ));
                }
                break;
            } else {
                proof {
                    assert(spec_selector_list(s, p_it, sel_views(sels_before)) is None);
                }
                return Err(ParseError::MalformedStylesheet);
            }
        }
        let ghost presorted = selectors@;
        let sorted = sort_selectors(selectors);
        proof {
            lemma_same_entries_views(presorted, sorted@);
            lemma_sel_views_index(presorted);
            lemma_sel_views_index(sorted@);
        }
        Ok(sorted)
    }

    /// Parses a length magnitude: a run of decimal digits, read exactly
    /// as `spec_number_acc` reads it; a magnitude that would not fit an
    /// unsigned 64-bit number is malformed.
    fn parse_number(&mut self) -> (r: Result<u64, ParseError>)
        requires
            old(self).wf(),
        ensures
            final(self).wf(),
            final(self).input == old(self).input,
            old(self).pos <= final(self).pos,
            r matches Err(e) ==> e == ParseError::MalformedStylesheet,
            r matches Ok(v) ==> spec_number_acc(old(self).input@, old(self).pos as int, 0) == Some(
                (v as int, final(self).pos as int),
            ) && final(self).pos > old(self).pos,
            r is Err ==> (old(self).pos >= old(self).input@.len() || !is_digit(
                old(self).input@[old(self).pos as int],
            ) || spec_number_acc(old(self).input@, old(self).pos as int, 0) is None),
    {
        let ghost s = old(self).input@;
        let mut value: u64 = 0;
        let n = self.input.len();
        if self.eof() {
            return Err(ParseError::MalformedStylesheet);
        }
        if !crate::chars::is_digit_char(self.next_char()) {
            return Err(ParseError::MalformedStylesheet);
        }
        while self.pos < n && crate::chars::is_digit_char(self.input[self.pos])
            invariant
                self.wf(),
                n == self.input@.len(),
                self.input == old(self).input,
                s == old(self).input@,
                old(self).pos <= self.pos,
                spec_number_acc(s, old(self).pos as int, 0) == spec_number_acc(
                    s,
                    self.pos as int,
                    value as int,
                ),
            decreases n - self.pos,
        {
            let c = self.next_char();
            let d: u64 = (c as u32 as u64) - 48;
            if value > (u64::MAX - d) / 10 {
                proof {
                    assert(value * 10 + d > u64::MAX);
                    assert(spec_number_acc(s, self.pos as int, value as int) is None);
                }
                return Err(ParseError::MalformedStylesheet);
            }
            let _ = self.consume_char();
            value = value * 10 + d;
        }
        proof {
            assert(spec_number_acc(s, self.pos as int, value as int) == Some(
                (value as int, self.pos as int),
            ));
        }
        Ok(value)
    }

    /// Parses one hexadecimal digit.
    fn parse_hex_digit(&mut self) -> (r: Result<u8, ParseError>)
        requires
            old(self).wf(),
        ensures
            final(self).wf(),
            final(self).input == old(self).input,
            old(self).pos <= final(self).pos,
            r matches Err(e) ==> e == ParseError::MalformedStylesheet,
            r matches Ok(d) ==> old(self).pos < old(self).input@.len() && hex_val(
                old(self).input@[old(self).pos as int],
            ) == d as int && final(self).pos == old(self).pos + 1,
            r is Err ==> old(self).pos >= old(self).input@.len() || hex_val(
                old(self).input@[old(self).pos as int],
            ) < 0,
    {
        if self.eof() {
            return Err(ParseError::MalformedStylesheet);
        }
        let c = self.consume_char();
        let u = c as u32;
        if 48 <= u && u <= 57 {
            Ok((u - 48) as u8)
        } else if 97 <= u && u <= 102 {
            Ok((u - 87) as u8)
        } else if 65 <= u && u <= 70 {
            Ok((u - 55) as u8)
        } else {
            Err(ParseError::MalformedStylesheet)
        }
    }

    /// Parses two hexadecimal digits into one channel value.
    fn parse_hex_pair(&mut self) -> (r: Result<u8, ParseError>)
        requires
            old(self).wf(),
        ensures
            final(self).wf(),
            final(self).input == old(self).input,
            old(self).pos <= final(self).pos,
            r matches Err(e) ==> e == ParseError::MalformedStylesheet,
            r matches Ok(d) ==> spec_hex_pair(old(self).input@, old(self).pos as int) == Some(
                (d, final(self).pos as int),
            ),
            r is Err ==> spec_hex_pair(old(self).input@, old(self).pos as int) is None,
    {
        let hi = self.parse_hex_digit()?;
        let lo = self.parse_hex_digit()?;
        Ok(hi * 16 + lo)
    }

    /// Parses one value, exactly as `spec_value` reads it: a whole
    /// number followed by `px`, a `#` followed by six hexadecimal
    /// digits, or a keyword identifier.
    pub fn parse_value(&mut self) -> (r: Result<Value, ParseError>)
        requires
            old(self).wf(),
        ensures
            final(self).wf(),
            final(self).input == old(self).input,
            old(self).pos <= final(self).pos,
            r matches Err(e) ==> e == ParseError::MalformedStylesheet,
            r matches Ok(v) ==> spec_value(old(self).input@, old(self).pos as int) == Some(
                (v@, final(self).pos as int),
            ) && final(self).pos > old(self).pos,
            r is Err ==> spec_value(old(self).input@, old(self).pos as int) is None,
    {
        let ghost s = old(self).input@;
        if self.eof() {
            return Err(ParseError::MalformedStylesheet);
        }
        let c = self.next_char();
        if crate::chars::is_digit_char(c) {
            let magnitude = self.parse_number()?;
            if self.eof() {
                return Err(ParseError::MalformedStylesheet);
            }
            if self.consume_char() != 'p' {
                return Err(ParseError::MalformedStylesheet);
            }
            if self.eof() {
                return Err(ParseError::MalformedStylesheet);
            }
            if self.consume_char() != 'x' {
                return Err(ParseError::MalformedStylesheet);
            }
            Ok(Value::Length(magnitude, Unit::Px))
        } else if c == '#' {
            let _ = self.consume_char();
            let red = self.parse_hex_pair()?;
            let green = self.parse_hex_pair()?;
            let blue = self.parse_hex_pair()?;
            Ok(Value::ColorValue(Color { r: red, g: green, b: blue, a: 255 }))
        } else if crate::chars::is_ident_char_exec(c) {
            let kw = self.parse_identifier();
            proof {
                assert(step_to(s, old(self).pos as int, self.pos as int) == self.pos as int);
            }
            Ok(Value::Keyword(kw))
        } else {
            Err(ParseError::MalformedStylesheet)
        }
    }

    /// Parses the rule body, exactly as `spec_decl_block` reads it:
    /// `{`, then `name: value;` repeated, then `}`. Declarations keep
    /// their source order.
    #[verifier::rlimit(100)]
    pub fn parse_declarations(&mut self) -> (r: Result<Vec<Declaration>, ParseError>)
        requires
            old(self).wf(),
        ensures
            final(self).wf(),
            final(self).input == old(self).input,
            old(self).pos <= final(self).pos,
            r matches Err(e) ==> e == ParseError::MalformedStylesheet,
            r matches Ok(ds) ==> spec_decl_block(old(self).input@, old(self).pos as int) == Some(
                (decl_views(ds@), final(self).pos as int),
            ) && final(self).pos > old(self).pos,
            r is Err ==> spec_decl_block(old(self).input@, old(self).pos as int) is None,
    {
        let ghost s = old(self).input@;
        let ghost p0 = old(self).pos as int;
        if self.eof() {
            return Err(ParseError::MalformedStylesheet);
        }
        if self.consume_char() != '{' {
            return Err(ParseError::MalformedStylesheet);
        }
        let ghost pb = self.pos as int;
        let mut declarations: Vec<Declaration> = Vec::new();
        proof {
            assert(decl_views(declarations@) =~= Seq::<DeclV>::empty());
        }
        loop
            invariant_except_break
                spec_declarations(s, pb, Seq::empty()) == spec_declarations(
                    s,
                    self.pos as int,
                    decl_views(declarations@),
                ),
            invariant
                self.wf(),
                self.input == old(self).input,
                s == old(self).input@,
                pb == p0 + 1,
                p0 == old(self).pos as int,
                s[p0] == '{',
                0 <= p0 < s.len(),
                pb <= self.pos,
            ensures
                self.wf(),
                self.input == old(self).input,
                pb <= self.pos,
                spec_declarations(s, pb, Seq::empty()) == Some(
                    (decl_views(declarations@), self.pos as int),
                ),
            decreases self.input@.len() - self.pos,
        {
            let ghost p_it = self.pos as int;
            let ghost ds_before = declarations@;
            self.consume_whitespace();
            let ghost wsp = self.pos as int;
            if self.eof() {
                proof {
                    assert(spec_declarations(s, p_it, decl_views(declarations@)) is None);
                }
                return Err(ParseError::MalformedStylesheet);
            }
            if self.next_char() == '}' {
                let _ = self.consume_char();
                proof {
                    assert(spec_declarations(s, p_it, decl_views(declarations@)) == Some(
                        (decl_views(declarations@), wsp + 1),
                    ));
                }
                break;
            }
            let name = self.parse_identifier();
            let ghost nep = self.pos as int;
            if name.as_str().unicode_len() == 0 {
                proof {
                    assert(spec_declarations(s, p_it, decl_views(declarations@)) is None);
                }
                return Err(ParseError::MalformedStylesheet);
            }
            proof {
                assert(step_to(s, wsp, nep) == nep);
            }
            self.consume_whitespace();
            let ghost ws2p = self.pos as int;
            if self.eof() {
                proof {
                    assert(spec_declarations(s, p_it, decl_views(declarations@)) is None);
                }
                return Err(ParseError::MalformedStylesheet);
            }
            if self.consume_char() != ':' {
                proof {
                    assert(spec_declarations(s, p_it, decl_views(declarations@)) is None);
                }
                return Err(ParseError::MalformedStylesheet);
            }
            self.consume_whitespace();
            let ghost vsp = self.pos as int;
            let value = match self.parse_value() {
                Ok(v) => v,
                Err(e) => {
                    proof {
                        assert(spec_declarations(s, p_it, decl_views(declarations@)) is None);
                    }
                    return Err(e);
                },
            };
            proof {
                assert(step_to(s, vsp, self.pos as int) == self.pos as int);
            }
            self.consume_whitespace();
            let ghost ws3p = self.pos as int;
            if self.eof() {
                proof {
                    assert(spec_declarations(s, p_it, decl_views(declarations@)) is None);
                }
                return Err(ParseError::MalformedStylesheet);
            }
            if self.consume_char() != ';' {
                proof {
                    assert(spec_declarations(s, p_it, decl_views(declarations@)) is None);
                }
                return Err(ParseError::MalformedStylesheet);
            }
            proof {
                lemma_decl_views_push(ds_before, Declaration { name, value });
                assert(spec_declarations(s, p_it, decl_views(ds_before)) == spec_declarations(
                    s,
                    self.pos as int,
                    decl_views(ds_before).push((name@, value@)),
                ));
            }
            declarations.push(Declaration { name, value });
        }
        Ok(declarations)
    }

    /// Parses one rule: its selector list, then its declaration body.
    pub fn parse_rule(&mut self) -> (r: Result<Rule, ParseError>)
        requires
            old(self).wf(),
        ensures
            final(self).wf(),
            final(self).input == old(self).input,
            old(self).pos <= final(self).pos,
            r matches Err(e) ==> e == ParseError::MalformedStylesheet,
            r matches Ok(rule) ==> {
                &&& spec_selector_list(old(self).input@, old(self).pos as int, Seq::empty())
                    matches Some(pr) && same_entries(pr.0, sel_views(rule.selectors@))
                    && rule.selectors@.len() == pr.0.len() && spec_decl_block(
                    old(self).input@,
                    pr.1,
                ) == Some((decl_views(rule.declarations@), final(self).pos as int))
                &&& forall|a: int, b: int|
                    0 <= a <= b < rule.selectors@.len() ==> sel_ge(
                        rule.selectors@[a],
                        rule.selectors@[b],
                    )
                &&& spec_rule_end(old(self).input@, old(self).pos as int) == Some(
                    final(self).pos as int,
                )
                &&& final(self).pos > old(self).pos
            },
            r is Err ==> spec_rule_end(old(self).input@, old(self).pos as int) is None,
    {
        let selectors = self.parse_selector()?;
        let declarations = self.parse_declarations()?;
        Ok(Rule { selectors, declarations })
    }
}

/// Parses a whole stylesheet, rules separated by whitespace up to the
/// end of input: it succeeds exactly when the text follows the rule
/// grammar (`spec_sheet_ok`), and each returned rule carries its
/// selector list sorted descending by specificity.
pub fn parse_stylesheet(text: &str) -> (r: Result<Stylesheet, ParseError>)
    ensures
        r matches Err(e) ==> e == ParseError::MalformedStylesheet,
        r is Ok <==> spec_sheet_ok(text@, 0),
        r matches Ok(sheet) ==> forall|k: int, a: int, b: int|
            0 <= k < sheet.rules@.len() && 0 <= a <= b < sheet.rules@[k].selectors@.len()
                ==> sel_ge(sheet.rules@[k].selectors@[a], sheet.rules@[k].selectors@[b]),
{
    let ghost t = text@;
    let mut parser = Parser::new(text);
    let mut rules: Vec<Rule> = Vec::new();
    loop
        invariant
            parser.wf(),
            t == parser.input@,
            t == text@,
            spec_sheet_ok(t, 0) == spec_sheet_ok(t, parser.pos as int),
            forall|k: int, a: int, b: int|
                0 <= k < rules@.len() && 0 <= a <= b < rules@[k].selectors@.len() ==> sel_ge(
                    rules@[k].selectors@[a],
                    rules@[k].selectors@[b],
                ),
        ensures
            spec_sheet_ok(t, 0),
            forall|k: int, a: int, b: int|
                0 <= k < rules@.len() && 0 <= a <= b < rules@[k].selectors@.len() ==> sel_ge(
                    rules@[k].selectors@[a],
                    rules@[k].selectors@[b],
                ),
        decreases parser.input@.len() - parser.pos,
    {
        let ghost p_it = parser.pos as int;
        parser.consume_whitespace();
        let ghost wsp = parser.pos as int;
        if parser.eof() {
            proof {
                assert(spec_sheet_ok(t, p_it));
            }
            break;
        }
        let ghost rules_before = rules@;
        let rule = match parser.parse_rule() {
            Ok(rule) => rule,
            Err(e) => {
                proof {
                    assert(!spec_sheet_ok(t, p_it));
                }
                return Err(e);
            },
        };
        proof {
            assert(step_to(t, wsp, parser.pos as int) == parser.pos as int);
            assert(spec_sheet_ok(t, p_it) == spec_sheet_ok(t, parser.pos as int));
            assert(rules@.push(rule).len() == rules_before.len() + 1);
        }
        rules.push(rule);
        proof {
            assert forall|k: int, a: int, b: int|
                0 <= k < rules@.len() && 0 <= a <= b < rules@[k].selectors@.len() implies sel_ge(
                rules@[k].selectors@[a],
                rules@[k].selectors@[b],
            ) by {
                if k < rules_before.len() {
                    assert(rules@[k] == rules_before[k]);
                } else {
                    assert(rules@[k] == rule);
                }
            }
        }
    }
    Ok(Stylesheet { rules })
}

} // verus!
