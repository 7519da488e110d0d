//! Markup parser: single-pass recursive descent over a cursor into a
//! buffer of Unicode scalar values. Any structural violation — a missing
//! delimiter, an unterminated quote, a mismatched closing tag — rejects
//! the whole input with `ParseError::MalformedMarkup`.
//!
//! The grammar itself is written down as specification functions over
//! the character sequence (`spec_node`, `spec_element`, `spec_nodes`,
//! `spec_source`); every parsing function is proved to return exactly
//! what the grammar function says, succeeding if and only if it does.

use vstd::prelude::*;
use vstd::string::*;
use crate::chars::{chars_to_string, is_alnum, is_ident_char, is_space, str_eq, str_to_chars};
use crate::dom::{elem, text, AttrMap, Node, NodeType};
use crate::error::ParseError;

verus! {

/// A character class the cursor can consume a run of.
#[derive(Clone, Copy, Debug)]
pub enum CharClass {
    /// Whitespace characters.
    Space,
    /// ASCII letters and digits: tag and attribute names.
    Alnum,
    /// Letters, digits, hyphen, underscore: selector identifiers.
    Ident,
    /// Decimal digits.
    Digit,
    /// Anything but `<`: a text run.
    NotLt,
    /// Anything but the given character: a quoted value.
    NotChar(char),
}

/// Whether `c` belongs to the class.
pub open spec fn in_class(test: CharClass, c: char) -> bool {
    match test {
        CharClass::Space => is_space(c),
        CharClass::Alnum => is_alnum(c),
        CharClass::Ident => is_ident_char(c),
        CharClass::Digit => crate::chars::is_digit(c),
        CharClass::NotLt => c != '<',
        CharClass::NotChar(q) => c != q,
    }
}

/// Decides `in_class`.
fn class_holds(test: CharClass, c: char) -> (r: bool)
    ensures
        r == in_class(test, c),
{
    match test {
        CharClass::Space => crate::chars::is_space_char(c),
        CharClass::Alnum => crate::chars::is_alnum_char(c),
        CharClass::Ident => crate::chars::is_ident_char_exec(c),
        CharClass::Digit => crate::chars::is_digit_char(c),
        CharClass::NotLt => c != '<',
        CharClass::NotChar(q) => c != q,
    }
}

/// The end of the maximal run of characters of class `test` at `pos`.
pub open spec fn run_end(s: Seq<char>, pos: int, test: CharClass) -> int
    decreases s.len() - pos,
{
    if pos < 0 || pos >= s.len() {
        pos
    } else if !in_class(test, s[pos]) {
        pos
    } else {
        run_end(s, pos + 1, test)
    }
}

/// A position bounding a run of class characters, itself at the end of
/// input or outside the class, is the run's end.
pub proof fn lemma_run_end_unique(s: Seq<char>, pos: int, test: CharClass, p: int)
    requires
        0 <= pos <= p <= s.len(),
        forall|k: int| pos <= k < p ==> in_class(test, s[k]),
        p < s.len() ==> !in_class(test, s[p]),
    ensures
        p == run_end(s, pos, test),
    decreases p - pos,
{
    if pos < p {
        lemma_run_end_unique(s, pos + 1, test, p);
    }
}

/// The cursor position a parsing step ends at, clamped strictly past
/// `lo` and into the input. Every step of this grammar advances the
/// cursor and stays inside the input, so on every reachable path the
/// clamp returns `p` itself; it only keeps the recursion of the grammar
/// functions visibly well-founded.
pub open spec fn step_to(s: Seq<char>, lo: int, p: int) -> int {
    if p <= lo {
        lo + 1
    } else if p > s.len() {
        s.len() as int
    } else {
        p
    }
}

/// The cursor after skipping whitespace at `pos`.
pub open spec fn spec_ws(s: Seq<char>, pos: int) -> int {
    step_to(s, pos - 1, run_end(s, pos, CharClass::Space))
}

/// Mathematical image of a document node: strings become their
/// character sequences and the attribute map becomes its mapping.
pub enum NodeV {
    Text(Seq<char>),
    Element { tag: Seq<char>, attrs: Map<Seq<char>, Seq<char>>, children: Seq<NodeV> },
}

/// The image of a node.
pub open spec fn node_view(n: Node) -> NodeV
    decreases n,
{
    match n.node_type {
        NodeType::Text(d) => NodeV::Text(d@),
        NodeType::Element(ed) => NodeV::Element {
            tag: ed.tag_name@,
            attrs: ed.attributes@,
            children: node_views(n.children@),
        },
    }
}

/// The images of a sequence of nodes, in order.
pub open spec fn node_views(ns: Seq<Node>) -> Seq<NodeV>
    decreases ns,
{
    if ns.len() == 0 {
        Seq::empty()
    } else {
        node_views(ns.subrange(0, ns.len() - 1)).push(node_view(ns[ns.len() - 1]))
    }
}

/// Appending a node appends its image.
pub proof fn lemma_node_views_push(ns: Seq<Node>, n: Node)
    ensures
        node_views(ns.push(n)) == node_views(ns).push(node_view(n)),
{
    assert(ns.push(n).subrange(0, ns.len() as int) =~= ns);
    assert(ns.push(n)[ns.len() as int] == n);
}

/// The image of a sequence of nodes is its pointwise image.
pub proof fn lemma_node_views_index(ns: Seq<Node>)
    ensures
        node_views(ns).len() == ns.len(),
        forall|i: int| 0 <= i < ns.len() ==> node_views(ns)[i] == node_view(ns[i]),
    decreases ns,
{
    if ns.len() > 0 {
        lemma_node_views_index(ns.subrange(0, ns.len() - 1));
    }
}

/// The grammar of a quoted attribute value at `pos`: a `"` or `'`, the
/// run of characters other than that quote, and the closing quote. The
/// result is the run and the position just past the closing quote;
/// a missing opening or closing quote parses to nothing.
pub open spec fn spec_attr_value(s: Seq<char>, pos: int) -> Option<(Seq<char>, int)> {
    if 0 <= pos < s.len() && (s[pos] == '"' || s[pos] == '\'') {
        let e = run_end(s, pos + 1, CharClass::NotChar(s[pos]));
        if pos + 1 <= e < s.len() {
            Some((s.subrange(pos + 1, e), e + 1))
        } else {
            None
        }
    } else {
        None
    }
}

/// The grammar of one attribute at `pos`: a letter-and-digit name, `=`,
/// and a quoted value.
pub open spec fn spec_attr(s: Seq<char>, pos: int) -> Option<((Seq<char>, Seq<char>), int)> {
    let ne = run_end(s, pos, CharClass::Alnum);
    if 0 <= pos <= ne < s.len() && s[ne] == '=' {
        match spec_attr_value(s, ne + 1) {
            Some((v, p)) => Some(((s.subrange(pos, ne), v), p)),
            None => None,
        }
    } else {
        None
    }
}

/// The grammar of an attribute region from `pos` on, folded onto the
/// bindings `m`: whitespace, then either the `>` that ends the region —
/// left unconsumed — or one attribute, bound over any earlier binding
/// of the same name. Reaching the end of input first parses to nothing.
pub open spec fn spec_attributes(s: Seq<char>, pos: int, m: Map<Seq<char>, Seq<char>>) -> Option<
    (Map<Seq<char>, Seq<char>>, int),
>
    decreases s.len() - pos,
{
    if pos < 0 || pos > s.len() {
        None
    } else {
        let ws = spec_ws(s, pos);
        if ws >= s.len() {
            None
        } else if s[ws] == '>' {
            Some((m, ws))
        } else {
            match spec_attr(s, ws) {
                Some(((n, v), p)) => spec_attributes(s, step_to(s, ws, p), m.insert(n, v)),
                None => None,
            }
        }
    }
}

/// The grammar of one node at `pos`: an element where the next
/// character is `<`, otherwise the text run up to the next `<`.
pub open spec fn spec_node(s: Seq<char>, pos: int) -> Option<(NodeV, int)>
    decreases s.len() - pos, 1int,
{
    if pos < 0 || pos >= s.len() {
        None
    } else if s[pos] == '<' {
        spec_element(s, pos)
    } else {
        let e = step_to(s, pos, run_end(s, pos, CharClass::NotLt));
        Some((NodeV::Text(s.subrange(pos, e)), e))
    }
}

/// The grammar of one element at `pos`: `<`, a tag name, attributes,
/// `>`, child nodes, and the exact closing sequence `</`, the same tag
/// name, `>`. Anything else parses to nothing.
pub open spec fn spec_element(s: Seq<char>, pos: int) -> Option<(NodeV, int)>
    decreases s.len() - pos, 0int,
{
    if pos < 0 || pos >= s.len() || s[pos] != '<' {
        None
    } else {
        let te = step_to(s, pos, run_end(s, pos + 1, CharClass::Alnum));
        let tag = s.subrange(pos + 1, te);
        match spec_attributes(s, te, Map::empty()) {
            None => None,
            Some((am, ge)) => match spec_nodes(s, step_to(s, pos, ge + 1), Seq::empty()) {
                None => None,
                Some((cs, ce)) => {
                    if 0 <= ce && ce + 2 <= s.len() && s[ce] == '<' && s[ce + 1] == '/' {
                        let ne = step_to(s, ce + 1, run_end(s, ce + 2, CharClass::Alnum));
                        if s.subrange(ce + 2, ne) == tag && ne < s.len() && s[ne] == '>' {
                            Some((NodeV::Element { tag, attrs: am, children: cs }, ne + 1))
                        } else {
                            None
                        }
                    } else {
                        None
                    }
                },
            },
        }
    }
}

/// The grammar of a node sequence from `pos` on, appended to `acc`:
/// whitespace between nodes carries no meaning, and the sequence ends
/// at the end of input or before a closing-tag lookahead `</`.
pub open spec fn spec_nodes(s: Seq<char>, pos: int, acc: Seq<NodeV>) -> Option<(Seq<NodeV>, int)>
    decreases s.len() - pos, 2int,
{
    if pos < 0 || pos > s.len() {
        None
    } else {
        let ws = spec_ws(s, pos);
        if ws >= s.len() {
            Some((acc, ws))
        } else if ws + 2 <= s.len() && s[ws] == '<' && s[ws + 1] == '/' {
            Some((acc, ws))
        } else {
            match spec_node(s, ws) {
                Some((nv, p)) => spec_nodes(s, step_to(s, ws, p), acc.push(nv)),
                None => None,
            }
        }
    }
}

/// The root the whole-document grammar yields: exactly one top-level
/// node is the root itself; any other number is wrapped in a synthetic
/// `html` element with no attributes, children in source order.
pub open spec fn spec_wrap(ns: Seq<NodeV>) -> NodeV {
    if ns.len() == 1 {
        ns[0]
    } else {
        NodeV::Element { tag: "html"@, attrs: Map::empty(), children: ns }
    }
}

/// The grammar of a whole document: the top-level node sequence, which
/// must consume the input entirely, wrapped by `spec_wrap`.
pub open spec fn spec_source(s: Seq<char>) -> Option<NodeV> {
    match spec_nodes(s, 0, Seq::empty()) {
        Some((ns, p)) => if p == s.len() {
            Some(spec_wrap(ns))
        } else {
            None
        },
        None => None,
    }
}

/// The parsing cursor: a position into a buffer of scalar values. One
/// instance serves one parse call; it is cheap to construct and never
/// shared.
#[derive(Debug)]
pub struct Parser {
    pub pos: usize,
    pub input: Vec<char>,
}

impl Parser {
    /// The cursor never stands past the end of the buffer.
    pub open spec fn wf(&self) -> bool {
        self.pos <= self.input@.len()
    }

    /// A cursor at the start of the characters of `source`.
    pub fn new(source: &str) -> (r: Parser)
        ensures
            r.wf(),
            r.pos == 0,
            r.input@ == source@,
    {
        Parser { pos: 0, input: str_to_chars(source) }
    }

    /// The next character, not yet consumed.
    pub fn next_char(&self) -> (c: char)
        requires
            self.wf(),
            self.pos < self.input@.len(),
        ensures
            c == self.input@[self.pos as int],
    {
        self.input[self.pos]
    }

    /// Whether the remaining input begins with the characters of `s`.
    pub fn starts_with(&self, s: &str) -> (r: bool)
        requires
            self.wf(),
        ensures
            r == (self.pos + s@.len() <= self.input@.len() && self.input@.subrange(
                self.pos as int,
                self.pos + s@.len(),
            ) == s@),
    {
        let n = s.unicode_len();
        let total = self.input.len();
        if n > total - self.pos {
            return false;
        }
        let mut i: usize = 0;
        while i < n
            invariant
                i <= n,
                n == s@.len(),
                self.wf(),
                total == self.input@.len(),
                self.pos + n <= self.input@.len(),
                forall|k: int| 0 <= k < i ==> self.input@[self.pos + k] == s@[k],
            decreases n - i,
        {
            if self.input[self.pos + i] != s.get_char(i) {
                proof {
                    let sub = self.input@.subrange(self.pos as int, self.pos + s@.len());
                    assert(sub[i as int] != s@[i as int]);
                }
                return false;
            }
            i += 1;
        }
        proof {
            assert(self.input@.subrange(self.pos as int, self.pos + s@.len()) =~= s@);
        }
        true
    }

    /// Whether the whole input has been consumed.
    pub fn eof(&self) -> (r: bool)
        ensures
            r == (self.pos >= self.input@.len()),
    {
        self.pos >= self.input.len()
    }

    /// Consumes and returns the next character.
    pub fn consume_char(&mut self) -> (c: char)
        requires
            old(self).wf(),
            old(self).pos < old(self).input@.len(),
        ensures
            final(self).wf(),
            final(self).input == old(self).input,
            final(self).pos == old(self).pos + 1,
            c == old(self).input@[old(self).pos as int],
    {
        let _total = self.input.len();
        let c = self.input[self.pos];
        self.pos = self.pos + 1;
        c
    }

    /// Consumes the maximal run of characters of the class `test` at the
    /// cursor and returns it.
    pub fn consume_while(&mut self, test: CharClass) -> (r: String)
        requires
            old(self).wf(),
        ensures
            final(self).wf(),
            final(self).input == old(self).input,
            old(self).pos <= final(self).pos,
            final(self).pos == run_end(old(self).input@, old(self).pos as int, test),
            forall|k: int|
                old(self).pos <= k < final(self).pos ==> in_class(test, old(self).input@[k]),
            final(self).pos < old(self).input@.len() ==> !in_class(
                test,
                old(self).input@[final(self).pos as int],
            ),
            r@ == old(self).input@.subrange(old(self).pos as int, final(self).pos as int),
    {
        let n = self.input.len();
        let mut buf: Vec<char> = Vec::new();
        while self.pos < n && class_holds(test, self.input[self.pos])
            invariant
                self.wf(),
                n == self.input@.len(),
                self.input == old(self).input,
                old(self).pos <= self.pos,
                forall|k: int| old(self).pos <= k < self.pos ==> in_class(test, self.input@[k]),
                buf@ == self.input@.subrange(old(self).pos as int, self.pos as int),
            decreases n - self.pos,
        {
            let c = self.input[self.pos];
            buf.push(c);
            self.pos = self.pos + 1;
            proof {
                assert(buf@ =~= self.input@.subrange(old(self).pos as int, self.pos as int));
            }
        }
        proof {
            lemma_run_end_unique(self.input@, old(self).pos as int, test, self.pos as int);
        }
        chars_to_string(&buf)
    }

    /// Consumes whitespace; it carries no meaning between tokens.
    pub fn consume_whitespace(&mut self)
        requires
            old(self).wf(),
        ensures
            final(self).wf(),
            final(self).input == old(self).input,
            old(self).pos <= final(self).pos,
            final(self).pos == spec_ws(old(self).input@, old(self).pos as int),
            forall|k: int|
                old(self).pos <= k < final(self).pos ==> is_space(old(self).input@[k]),
            final(self).pos < old(self).input@.len() ==> !is_space(
                old(self).input@[final(self).pos as int],
            ),
    {
        let _ = self.consume_while(CharClass::Space);
    }

    /// Consumes the maximal run of letters and digits at the cursor: a
    /// tag or attribute name, possibly empty.
    pub fn parse_tag_name(&mut self) -> (r: String)
        requires
            old(self).wf(),
        ensures
            final(self).wf(),
            final(self).input == old(self).input,
            old(self).pos <= final(self).pos,
            final(self).pos == run_end(old(self).input@, old(self).pos as int, CharClass::Alnum),
            forall|k: int|
                old(self).pos <= k < final(self).pos ==> is_alnum(old(self).input@[k]),
            final(self).pos < old(self).input@.len() ==> !is_alnum(
                old(self).input@[final(self).pos as int],
            ),
            r@ == old(self).input@.subrange(old(self).pos as int, final(self).pos as int),
    {
        self.consume_while(CharClass::Alnum)
    }

    /// Consumes a text run up to the next `<` and yields one text node.
    pub fn parse_text(&mut self) -> (r: Node)
        requires
            old(self).wf(),
        ensures
            final(self).wf(),
            final(self).input == old(self).input,
            old(self).pos <= final(self).pos,
            final(self).pos == run_end(old(self).input@, old(self).pos as int, CharClass::NotLt),
            forall|k: int|
                old(self).pos <= k < final(self).pos ==> old(self).input@[k] != '<',
            final(self).pos < old(self).input@.len() ==> old(self).input@[final(self).pos as int]
                == '<',
            r.node_type matches NodeType::Text(d) && d@ == old(self).input@.subrange(
                old(self).pos as int,
                final(self).pos as int,
            ),
            r.children@.len() == 0,
            old(self).pos < old(self).input@.len() && old(self).input@[old(self).pos as int]
                != '<' ==> final(self).pos > old(self).pos,
    {
        let run = self.consume_while(CharClass::NotLt);
        text(run)
    }

    /// Consumes a quoted attribute value: an opening `"` or `'`, the
    /// characters up to the matching quote, and that closing quote.
    /// Anything else is malformed.
    pub fn parse_attr_value(&mut self) -> (r: Result<String, ParseError>)
        requires
            old(self).wf(),
        ensures
            final(self).wf(),
            final(self).input == old(self).input,
            old(self).pos <= final(self).pos,
            r matches Err(e) ==> e == ParseError::MalformedMarkup,
            r matches Ok(v) ==> spec_attr_value(old(self).input@, old(self).pos as int) == Some(
                (v@, final(self).pos as int),
            ),
            r is Err ==> spec_attr_value(old(self).input@, old(self).pos as int) is None,
    {
        if self.eof() {
            return Err(ParseError::MalformedMarkup);
        }
        let open_quote = self.consume_char();
        if open_quote != '"' && open_quote != '\'' {
            return Err(ParseError::MalformedMarkup);
        }
        let value = self.consume_while(CharClass::NotChar(open_quote));
        if self.eof() {
            return Err(ParseError::MalformedMarkup);
        }
        let close_quote = self.consume_char();
        if close_quote != open_quote {
            return Err(ParseError::MalformedMarkup);
        }
        Ok(value)
    }

    /// Consumes one `name="value"` pair.
    pub fn parse_attr(&mut self) -> (r: Result<(String, String), ParseError>)
        requires
            old(self).wf(),
        ensures
            final(self).wf(),
            final(self).input == old(self).input,
            old(self).pos <= final(self).pos,
            r matches Err(e) ==> e == ParseError::MalformedMarkup,
            r matches Ok(a) ==> spec_attr(old(self).input@, old(self).pos as int) == Some(
                ((a.0@, a.1@), final(self).pos as int),
            ) && final(self).pos > old(self).pos,
            r is Err ==> spec_attr(old(self).input@, old(self).pos as int) is None,
    {
        let name = self.parse_tag_name();
        if self.eof() {
            return Err(ParseError::MalformedMarkup);
        }
        let eq = self.consume_char();
        if eq != '=' {
            return Err(ParseError::MalformedMarkup);
        }
        let value = self.parse_attr_value()?;
        Ok((name, value))
    }

    /// Consumes `name="value"` pairs, whitespace between them, up to the
    /// `>` that closes the tag. A later pair with the same name replaces
    /// the earlier one.
    pub fn parse_attributes(&mut self) -> (r: Result<AttrMap, ParseError>)
        requires
            old(self).wf(),
        ensures
            final(self).wf(),
            final(self).input == old(self).input,
            old(self).pos <= final(self).pos,
            r matches Err(e) ==> e == ParseError::MalformedMarkup,
            r matches Ok(am) ==> spec_attributes(
                old(self).input@,
                old(self).pos as int,
                Map::empty(),
            ) == Some((am@, final(self).pos as int)),
            r is Ok ==> final(self).pos < old(self).input@.len() && old(
                self,
            ).input@[final(self).pos as int] == '>',
            r is Err ==> spec_attributes(old(self).input@, old(self).pos as int, Map::empty())
                is None,
    {
        let ghost s = old(self).input@;
        let mut attributes = AttrMap::new();
        loop
            invariant
                self.wf(),
                self.input == old(self).input,
                s == old(self).input@,
                old(self).pos <= self.pos,
                spec_attributes(s, old(self).pos as int, Map::empty()) == spec_attributes(
                    s,
                    self.pos as int,
                    attributes@,
                ),
            ensures
                self.wf(),
                self.input == old(self).input,
                old(self).pos <= self.pos,
                self.pos < self.input@.len() && self.input@[self.pos as int] == '>',
                spec_attributes(s, old(self).pos as int, Map::empty()) == Some(
                    (attributes@, self.pos as int),
                ),
            decreases self.input@.len() - self.pos,
        {
            let ghost p_before = self.pos as int;
            self.consume_whitespace();
            let ghost wsp = self.pos as int;
            if self.eof() {
                proof {
                    assert(spec_attributes(s, p_before, attributes@) is None);
                }
                return Err(ParseError::MalformedMarkup);
            }
            if self.next_char() == '>' {
                proof {
                    assert(spec_attributes(s, p_before, attributes@) == Some(
                        (attributes@, wsp),
                    ));
                    assert(spec_ws(s, wsp) == wsp);
                    assert(spec_attributes(s, wsp, attributes@) == Some((attributes@, wsp)));
                }
                break;
            }
            let ghost attrs_before = attributes@;
            let attr = match self.parse_attr() {
                Ok(a) => a,
                Err(e) => {
                    proof {
                        assert(spec_attributes(s, p_before, attributes@) is None);
                    }
                    return Err(e);
                },
            };
            proof {
                assert(step_to(s, wsp, self.pos as int) == self.pos as int);
                assert(spec_attributes(s, p_before, attrs_before) == spec_attributes(
                    s,
                    self.pos as int,
                    attrs_before.insert(attr.0@, attr.1@),
                ));
            }
            attributes.insert(attr.0, attr.1);
        }
        Ok(attributes)
    }

    /// Parses one node: an element if the next character is `<`, a text
    /// run otherwise.
    pub fn parse_node(&mut self) -> (r: Result<Node, ParseError>)
        requires
            old(self).wf(),
            old(self).pos < old(self).input@.len(),
        ensures
            final(self).wf(),
            final(self).input == old(self).input,
            old(self).pos <= final(self).pos,
            r matches Err(e) ==> e == ParseError::MalformedMarkup,
            r matches Ok(n) ==> spec_node(old(self).input@, old(self).pos as int) == Some(
                (node_view(n), final(self).pos as int),
            ) && final(self).pos > old(self).pos,
            r is Err ==> spec_node(old(self).input@, old(self).pos as int) is None,
        decreases old(self).input@.len() - old(self).pos, 1int,
    {
        if self.next_char() == '<' {
            self.parse_element()
        } else {
            let n = self.parse_text();
            proof {
                assert(step_to(old(self).input@, old(self).pos as int, self.pos as int)
                    == self.pos as int);
            }
            Ok(n)
        }
    }

    /// Parses one element: `<`, tag name, attributes, `>`, children, and
    /// the exact closing sequence `</`, the same tag name, `>`. A
    /// closing tag whose name differs from the opening one is malformed.
    pub fn parse_element(&mut self) -> (r: Result<Node, ParseError>)
        requires
            old(self).wf(),
        ensures
            final(self).wf(),
            final(self).input == old(self).input,
            old(self).pos <= final(self).pos,
            r matches Err(e) ==> e == ParseError::MalformedMarkup,
            r matches Ok(n) ==> spec_element(old(self).input@, old(self).pos as int) == Some(
                (node_view(n), final(self).pos as int),
            ) && final(self).pos > old(self).pos && n.node_type matches NodeType::Element(_),
            r is Err ==> spec_element(old(self).input@, old(self).pos as int) is None,
        decreases old(self).input@.len() - old(self).pos, 0int,
    {
        let ghost s = old(self).input@;
        let ghost p0 = old(self).pos as int;
        if self.eof() {
            return Err(ParseError::MalformedMarkup);
        }
        let open = self.consume_char();
        if open != '<' {
            return Err(ParseError::MalformedMarkup);
        }
        let tag_name = self.parse_tag_name();
        proof {
            assert(step_to(s, p0, self.pos as int) == self.pos as int);
        }
        let ghost te = self.pos as int;
        let attrs = self.parse_attributes()?;
        let gt = self.consume_char();
        if gt != '>' {
            return Err(ParseError::MalformedMarkup);
        }
        proof {
            assert(step_to(s, p0, self.pos as int) == self.pos as int);
        }
        let children = self.parse_nodes()?;
        let ghost ce = self.pos as int;
        if self.eof() {
            return Err(ParseError::MalformedMarkup);
        }
        let c1 = self.consume_char();
        if c1 != '<' {
            return Err(ParseError::MalformedMarkup);
        }
        if self.eof() {
            return Err(ParseError::MalformedMarkup);
        }
        let c2 = self.consume_char();
        if c2 != '/' {
            return Err(ParseError::MalformedMarkup);
        }
        let close_name = self.parse_tag_name();
        proof {
            assert(step_to(s, ce + 1, self.pos as int) == self.pos as int);
        }
        if !str_eq(close_name.as_str(), tag_name.as_str()) {
            return Err(ParseError::MalformedMarkup);
        }
        if self.eof() {
            return Err(ParseError::MalformedMarkup);
        }
        let c3 = self.consume_char();
        if c3 != '>' {
            return Err(ParseError::MalformedMarkup);
        }
        let node = elem(tag_name, attrs, children);
        Ok(node)
    }

    /// Parses nodes until the end of input or a closing-tag lookahead
    /// `</`, whitespace between them carrying no meaning.
    pub fn parse_nodes(&mut self) -> (r: Result<Vec<Node>, ParseError>)
        requires
            old(self).wf(),
        ensures
            final(self).wf(),
            final(self).input == old(self).input,
            old(self).pos <= final(self).pos,
            r matches Err(e) ==> e == ParseError::MalformedMarkup,
            r matches Ok(ns) ==> spec_nodes(old(self).input@, old(self).pos as int, Seq::empty())
                == Some((node_views(ns@), final(self).pos as int)),
            r is Err ==> spec_nodes(old(self).input@, old(self).pos as int, Seq::empty()) is None,
        decreases old(self).input@.len() - old(self).pos, 2int,
    {
        let ghost s = old(self).input@;
        let mut nodes: Vec<Node> = Vec::new();
        proof {
            assert(node_views(nodes@) =~= Seq::<NodeV>::empty());
        }
        loop
            invariant
                self.wf(),
                self.input == old(self).input,
                s == old(self).input@,
                old(self).pos <= self.pos,
                spec_nodes(s, old(self).pos as int, Seq::empty()) == spec_nodes(
                    s,
                    self.pos as int,
                    node_views(nodes@),
                ),
            ensures
                self.wf(),
                self.input == old(self).input,
                old(self).pos <= self.pos,
                spec_nodes(s, old(self).pos as int, Seq::empty()) == Some(
                    (node_views(nodes@), self.pos as int),
                ),
            decreases self.input@.len() - self.pos,
        {
            let ghost p_it = self.pos as int;
            self.consume_whitespace();
            let ghost wsp = self.pos as int;
            if self.eof() {
                proof {
                    assert(spec_nodes(s, p_it, node_views(nodes@)) == Some(
                        (node_views(nodes@), wsp),
                    ));
                    assert(spec_ws(s, wsp) == wsp);
                    assert(spec_nodes(s, wsp, node_views(nodes@)) == Some(
                        (node_views(nodes@), wsp),
                    ));
                }
                break;
            }
            if self.starts_with("</") {
                proof {
                    reveal_strlit("</");
                    assert(self.input@.subrange(self.pos as int, self.pos + 2) == "</"@);
                    assert(self.input@[self.pos as int] == "</"@[0]);
                    assert(self.input@[self.pos + 1] == "</"@[1]);
                    assert(spec_nodes(s, p_it, node_views(nodes@)) == Some(
                        (node_views(nodes@), wsp),
                    ));
                    assert(spec_ws(s, wsp) == wsp);
                    assert(spec_nodes(s, wsp, node_views(nodes@)) == Some(
                        (node_views(nodes@), wsp),
                    ));
                }
                break;
            }
            proof {
                reveal_strlit("</");
                if self.pos + 2 <= self.input@.len() && self.input@[self.pos as int] == '<'
                    && self.input@[self.pos + 1] == '/' {
                    assert(self.input@.subrange(self.pos as int, self.pos + 2) =~= "</"@);
                }
            }
            let ghost nodes_before = nodes@;
            let node = match self.parse_node() {
                Ok(n) => n,
                Err(e) => {
                    proof {
                        assert(spec_nodes(s, p_it, node_views(nodes@)) is None);
                    }
                    return Err(e);
                },
            };
            proof {
                lemma_node_views_push(nodes_before, node);
                assert(step_to(s, wsp, self.pos as int) == self.pos as int);
                assert(spec_nodes(s, p_it, node_views(nodes_before)) == spec_nodes(
                    s,
                    self.pos as int,
                    node_views(nodes_before).push(node_view(node)),
                ));
            }
            nodes.push(node);
        }
        Ok(nodes)
    }
}

/// The root for inputs that do not parse to exactly one top-level node:
/// one top-level node is returned directly, any other number is wrapped
/// in a synthetic `html` element holding all parsed nodes in source
/// order.
pub fn wrap_root(nodes: Vec<Node>) -> (r: Node)
    ensures
        nodes@.len() == 1 ==> r == nodes@[0],
        nodes@.len() != 1 ==> {
            &&& r.node_type matches NodeType::Element(ed) && ed.tag_name@ == "html"@
                && ed.attributes@ == Map::<Seq<char>, Seq<char>>::empty()
            &&& r.children@ == nodes@
        },
        node_view(r) == spec_wrap(node_views(nodes@)),
{
    proof {
        lemma_node_views_index(nodes@);
    }
    let mut nodes = nodes;
    if nodes.len() == 1 {
        let n = nodes.pop();
        match n {
            Some(node) => node,
            None => unreached(),
        }
    } else {
        elem(String::from_str("html"), AttrMap::new(), nodes)
    }
}

/// Parses a whole markup document: the result is exactly what the
/// whole-document grammar `spec_source` yields for the input's
/// characters, and the parse fails — always with `MalformedMarkup` —
/// exactly when the grammar yields nothing.
pub fn source(markup: String) -> (r: Result<Node, ParseError>)
    ensures
        r matches Err(e) ==> e == ParseError::MalformedMarkup,
        r matches Ok(n) ==> spec_source(markup@) == Some(node_view(n)),
        r is Err ==> spec_source(markup@) is None,
{
    let mut parser = Parser::new(markup.as_str());
    let nodes = parser.parse_nodes()?;
    if !parser.eof() {
        return Err(ParseError::MalformedMarkup);
    }
    Ok(wrap_root(nodes))
}

} // verus!
