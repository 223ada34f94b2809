//! The micro-languages of OFD attribute values: coordinates, boxes, paths and
//! delta sequences, each a run of whitespace-separated tokens.

use vstd::prelude::*;

use crate::numeral::{is_numeral, lemma_numeral_is_word, repeat_count, Numeral};
use crate::text::{chars_of, is_word, join_space, lemma_split_join_space, tokenize, views, ws_tokens};

verus! {

/// Why attribute text could not be decoded.
pub enum ParseSTError {
    /// Wrong number of tokens, an unknown opcode, or a missing operand.
    InvalidFormat,
    /// A token stands where a number belongs but is no numeral; it is carried here.
    ParseFloatError(String),
}

/// What a decoding error says, over plain text.
pub enum STErrorView {
    InvalidFormat,
    ParseFloat(Seq<char>),
}

impl View for ParseSTError {
    type V = STErrorView;

    open spec fn view(&self) -> STErrorView {
        match self {
            ParseSTError::InvalidFormat => STErrorView::InvalidFormat,
            ParseSTError::ParseFloatError(t) => STErrorView::ParseFloat(t@),
        }
    }
}

/// The texts of a sequence of numerals.
pub open spec fn numeral_views(v: Seq<Numeral>) -> Seq<Seq<char>> {
    v.map_values(|n: Numeral| n@)
}

/// The first token of `t` that is no numeral.
pub open spec fn first_non_numeral(t: Seq<Seq<char>>) -> Option<Seq<char>>
    decreases t.len(),
{
    if t.len() == 0 {
        None
    } else if !is_numeral(t[0]) {
        Some(t[0])
    } else {
        first_non_numeral(t.drop_first())
    }
}

/// Operand tokens read as numerals: all of them, or an error on the first bad one.
pub open spec fn numerals_of(t: Seq<Seq<char>>) -> Result<Seq<Seq<char>>, STErrorView> {
    match first_non_numeral(t) {
        Some(b) => Err(STErrorView::ParseFloat(b)),
        None => Ok(t),
    }
}

/// Exactly `n` tokens, each a numeral.
pub open spec fn fixed_numerals(s: Seq<char>, n: nat) -> Result<Seq<Seq<char>>, STErrorView> {
    if ws_tokens(s).len() != n {
        Err(STErrorView::InvalidFormat)
    } else {
        numerals_of(ws_tokens(s))
    }
}

proof fn lemma_first_non_numeral_at(t: Seq<Seq<char>>, j: int)
    requires
        0 <= j <= t.len(),
        forall|k: int| 0 <= k < j ==> is_numeral(#[trigger] t[k]),
    ensures
        j < t.len() && !is_numeral(t[j]) ==> first_non_numeral(t) == Some(t[j]),
        j == t.len() ==> first_non_numeral(t) is None,
    decreases j,
{
    if j > 0 {
        assert forall|k: int| 0 <= k < j - 1 implies is_numeral(#[trigger] t.drop_first()[k]) by {
            assert(t.drop_first()[k] == t[k + 1]);
        }
        if j < t.len() {
            assert(t.drop_first()[j - 1] == t[j]);
        }
        lemma_first_non_numeral_at(t.drop_first(), j - 1);
    }
}

/// Reads `toks[from..from + n]` as numerals.
fn parse_numerals(toks: &Vec<String>, from: usize, n: usize) -> (r: Result<
    Vec<Numeral>,
    ParseSTError,
>)
    requires
        from + n <= toks@.len(),
    ensures
        numerals_of(views(toks@).subrange(from as int, from + n)) == match r {
            Ok(v) => Ok(numeral_views(v@)),
            Err(e) => Err(e@),
        },
        r matches Ok(v) ==> v@.len() == n,
{
    let ghost t = views(toks@).subrange(from as int, from + n);
    let len = toks.len();
    let mut v: Vec<Numeral> = Vec::new();
    let mut j: usize = 0;
    while j < n
        invariant
            len == toks@.len(),
            from + n <= toks@.len(),
            t == views(toks@).subrange(from as int, from + n),
            j <= n,
            numeral_views(v@) == t.take(j as int),
            forall|k: int| 0 <= k < j ==> is_numeral(#[trigger] t[k]),
        decreases n - j,
    {
        assert(from + j < toks@.len());
        let idx: usize = from + j;
        assert(t[j as int] == toks@[idx as int]@);
        match Numeral::parse(toks[idx].as_str()) {
            Some(x) => {
                v.push(x);
                assert(t.take(j + 1) == t.take(j as int).push(t[j as int]));
                assert(numeral_views(v@) == t.take(j + 1));
            },
            None => {
                proof {
                    lemma_first_non_numeral_at(t, j as int);
                }
                return Err(ParseSTError::ParseFloatError(toks[idx].clone()));
            },
        }
        j = j + 1;
    }
    proof {
        lemma_first_non_numeral_at(t, n as int);
        assert(t.take(n as int) == t);
    }
    Ok(v)
}

/// A coordinate pair: two numerals.
pub struct STPos {
    pub x: Numeral,
    pub y: Numeral,
}

impl STPos {
    pub open spec fn numerals(&self) -> Seq<Seq<char>> {
        seq![self.x@, self.y@]
    }

    /// Decodes `"x y"`.
    pub fn from_str(s: &str) -> (r: Result<STPos, ParseSTError>)
        ensures
            fixed_numerals(s@, 2) == match r {
                Ok(p) => Ok(p.numerals()),
                Err(e) => Err(e@),
            },
    {
        let toks = tokenize(s);
        if toks.len() != 2 {
            return Err(ParseSTError::InvalidFormat);
        }
        assert(views(toks@).subrange(0, 2) == views(toks@));
        let mut v = parse_numerals(&toks, 0, 2)?;
        let y = v.pop().unwrap();
        let x = v.pop().unwrap();
        let r = STPos { x, y };
        assert(r.numerals() == ws_tokens(s@));
        Ok(r)
    }

    /// The pair written out: `x`, one space, `y`.
    pub fn to_text(&self) -> (r: String)
        ensures
            r@ == join_space(self.numerals()),
    {
        proof {
            reveal_strlit(" ");
        }
        let mut r = self.x.as_str().to_owned();
        r.append(" ");
        r.append(self.y.as_str());
        proof {
            let n = self.numerals();
            assert(n.drop_first() == seq![self.y@]);
            assert(join_space(seq![self.y@]) == self.y@);
            assert(join_space(n) == self.x@ + seq![' '] + self.y@);
            assert(r@ =~= self.x@ + seq![' '] + self.y@);
        }
        r
    }
}

/// Numerals written out with single spaces read back as the same numerals.
proof fn lemma_fixed_round_trip(ts: Seq<Seq<char>>)
    requires
        forall|i: int| 0 <= i < ts.len() ==> is_numeral(#[trigger] ts[i]),
    ensures
        fixed_numerals(join_space(ts), ts.len()) == Ok::<Seq<Seq<char>>, STErrorView>(ts),
{
    assert forall|i: int| 0 <= i < ts.len() implies is_word(#[trigger] ts[i]) by {
        lemma_numeral_is_word(ts[i]);
    }
    lemma_split_join_space(ts);
    lemma_first_non_numeral_at(ts, ts.len() as int);
}

/// A coordinate pair written out as `"x y"` reads back as the same pair.
pub proof fn lemma_pos_round_trip(x: Seq<char>, y: Seq<char>)
    requires
        is_numeral(x),
        is_numeral(y),
    ensures
        fixed_numerals(join_space(seq![x, y]), 2) == Ok::<Seq<Seq<char>>, STErrorView>(seq![x, y]),
{
    lemma_fixed_round_trip(seq![x, y]);
}

/// Text of other than two tokens is no coordinate pair.
pub proof fn lemma_pos_token_count(s: Seq<char>)
    requires
        ws_tokens(s).len() != 2,
    ensures
        fixed_numerals(s, 2) == Err::<Seq<Seq<char>>, STErrorView>(STErrorView::InvalidFormat),
{
}

/// A rectangle written out as `"x y w h"` reads back as the same rectangle.
pub proof fn lemma_box_round_trip(x: Seq<char>, y: Seq<char>, w: Seq<char>, h: Seq<char>)
    requires
        is_numeral(x),
        is_numeral(y),
        is_numeral(w),
        is_numeral(h),
    ensures
        fixed_numerals(join_space(seq![x, y, w, h]), 4) == Ok::<Seq<Seq<char>>, STErrorView>(seq![x, y, w, h]),
{
    lemma_fixed_round_trip(seq![x, y, w, h]);
}

/// Text of other than four tokens is no rectangle.
pub proof fn lemma_box_token_count(s: Seq<char>)
    requires
        ws_tokens(s).len() != 4,
    ensures
        fixed_numerals(s, 4) == Err::<Seq<Seq<char>>, STErrorView>(STErrorView::InvalidFormat),
{
}

/// A rectangle: origin, width and height, as four numerals.
pub struct STBox {
    pub x: Numeral,
    pub y: Numeral,
    pub w: Numeral,
    pub h: Numeral,
}

impl STBox {
    pub open spec fn numerals(&self) -> Seq<Seq<char>> {
        seq![self.x@, self.y@, self.w@, self.h@]
    }

    /// Decodes `"x y w h"`.
    pub fn from_str(s: &str) -> (r: Result<STBox, ParseSTError>)
        ensures
            fixed_numerals(s@, 4) == match r {
                Ok(b) => Ok(b.numerals()),
                Err(e) => Err(e@),
            },
    {
        let toks = tokenize(s);
        if toks.len() != 4 {
            return Err(ParseSTError::InvalidFormat);
        }
        assert(views(toks@).subrange(0, 4) == views(toks@));
        let mut v = parse_numerals(&toks, 0, 4)?;
        let ghost v0 = v@;
        let h = v.pop().unwrap();
        let w = v.pop().unwrap();
        let y = v.pop().unwrap();
        let x = v.pop().unwrap();
        assert(v0 == seq![x, y, w, h]);
        let r = STBox { x, y, w, h };
        assert(r.numerals() == numeral_views(v0));
        Ok(r)
    }

    /// The rectangle written out: `x y w h` with single spaces.
    pub fn to_text(&self) -> (r: String)
        ensures
            r@ == join_space(self.numerals()),
    {
        proof {
            reveal_strlit(" ");
        }
        let mut r = self.x.as_str().to_owned();
        r.append(" ");
        r.append(self.y.as_str());
        r.append(" ");
        r.append(self.w.as_str());
        r.append(" ");
        r.append(self.h.as_str());
        proof {
            let n = self.numerals();
            assert(n.drop_first() == seq![self.y@, self.w@, self.h@]);
            assert(n.drop_first().drop_first() == seq![self.w@, self.h@]);
            assert(n.drop_first().drop_first().drop_first() == seq![self.h@]);
            assert(join_space(seq![self.h@]) == self.h@);
            assert(join_space(seq![self.w@, self.h@]) == self.w@ + seq![' '] + self.h@);
            assert(join_space(seq![self.y@, self.w@, self.h@]) == self.y@ + seq![' '] + (self.w@
                + seq![' '] + self.h@));
            assert(join_space(n) == self.x@ + seq![' '] + (self.y@ + seq![' '] + (self.w@ + seq![
                ' ',
            ] + self.h@)));
            assert(r@ =~= self.x@ + seq![' '] + (self.y@ + seq![' '] + (self.w@ + seq![' ']
                + self.h@)));
        }
        r
    }
}

/// `S x y`: makes (x, y) the current point.
pub struct StartAt {
    pub pos: STPos,
}

/// `M x y`: moves to (x, y) and starts a new subpath there.
pub struct MoveTo {
    pub pos: STPos,
}

/// `L x y`: a straight line to (x, y).
pub struct LineTo {
    pub pos: STPos,
}

/// `Q x1 y1 x2 y2`: a quadratic curve to `pos2` with control point `pos1`.
pub struct QuadraticBezierCurve {
    pub pos1: STPos,
    pub pos2: STPos,
}

/// `B x1 y1 x2 y2 x3 y3`: a cubic curve to `pos3` with control points `pos1`, `pos2`.
pub struct CubicBezierCurve {
    pub pos1: STPos,
    pub pos2: STPos,
    pub pos3: STPos,
}

/// `A rx ry angle large sweep x y`: an elliptical arc to `pos`.
pub struct EllipseArc {
    pub rx: Numeral,
    pub ry: Numeral,
    pub angle: Numeral,
    pub large: Numeral,
    pub sweep: Numeral,
    pub pos: STPos,
}

/// `C`: closes the current subpath.
pub struct ClosePath {}

/// One operation of a path.
pub enum PathElement {
    StartAt(StartAt),
    MoveTo(MoveTo),
    LineTo(LineTo),
    QuadraticBezierCurve(QuadraticBezierCurve),
    CubicBezierCurve(CubicBezierCurve),
    EllipseArc(EllipseArc),
    ClosePath(ClosePath),
}

impl View for PathElement {
    /// The opcode and the operand numerals, in the order written.
    type V = (char, Seq<Seq<char>>);

    open spec fn view(&self) -> (char, Seq<Seq<char>>) {
        match self {
            PathElement::StartAt(e) => ('S', e.pos.numerals()),
            PathElement::MoveTo(e) => ('M', e.pos.numerals()),
            PathElement::LineTo(e) => ('L', e.pos.numerals()),
            PathElement::QuadraticBezierCurve(e) => ('Q', e.pos1.numerals() + e.pos2.numerals()),
            PathElement::CubicBezierCurve(e) => (
                'B',
                e.pos1.numerals() + e.pos2.numerals() + e.pos3.numerals(),
            ),
            PathElement::EllipseArc(e) => (
                'A',
                seq![e.rx@, e.ry@, e.angle@, e.large@, e.sweep@] + e.pos.numerals(),
            ),
            PathElement::ClosePath(_) => ('C', seq![]),
        }
    }
}

/// How many operands each opcode takes.
pub open spec fn opcode_arity(c: char) -> Option<nat> {
    if c == 'S' || c == 'M' || c == 'L' {
        Some(2)
    } else if c == 'Q' {
        Some(4)
    } else if c == 'B' {
        Some(6)
    } else if c == 'A' {
        Some(7)
    } else if c == 'C' {
        Some(0)
    } else {
        None
    }
}

/// The operand count of an opcode token; `None` for a token that is no opcode.
pub open spec fn arity(op: Seq<char>) -> Option<nat> {
    if op.len() == 1 {
        opcode_arity(op[0])
    } else {
        None
    }
}

/// `p` in front of a successful result; an error passes through.
pub open spec fn prepend<A>(p: Seq<A>, r: Result<Seq<A>, STErrorView>) -> Result<
    Seq<A>,
    STErrorView,
> {
    match r {
        Ok(x) => Ok(p + x),
        Err(e) => Err(e),
    }
}

/// The operations of a path, read left to right from its tokens: each opcode
/// takes its fixed number of operands, all of which must be present before
/// any is read as a numeral.
pub open spec fn path_ops(t: Seq<Seq<char>>) -> Result<Seq<(char, Seq<Seq<char>>)>, STErrorView>
    decreases t.len(),
{
    if t.len() == 0 {
        Ok(seq![])
    } else {
        match arity(t[0]) {
            None => Err(STErrorView::InvalidFormat),
            Some(n) => if t.len() < n + 1 {
                Err(STErrorView::InvalidFormat)
            } else {
                match numerals_of(t.subrange(1, n + 1 as int)) {
                    Err(e) => Err(e),
                    Ok(ops) => prepend(seq![(t[0][0], ops)], path_ops(t.skip(n + 1 as int))),
                }
            },
        }
    }
}

/// The opcode and operand count of an opcode token.
fn opcode_of(tok: &String) -> (r: Option<(char, usize)>)
    ensures
        match r {
            None => arity(tok@) is None,
            Some((c, n)) => arity(tok@) == Some(n as nat) && tok@.len() == 1 && tok@[0] == c,
        },
{
    let cs = chars_of(tok.as_str());
    if cs.len() != 1 {
        return None;
    }
    let c = cs[0];
    let n: usize = if c == 'S' || c == 'M' || c == 'L' {
        2
    } else if c == 'Q' {
        4
    } else if c == 'B' {
        6
    } else if c == 'A' {
        7
    } else if c == 'C' {
        0
    } else {
        return None;
    };
    Some((c, n))
}

/// Builds the operation of opcode `c` from its operands.
fn make_element(c: char, v: Vec<Numeral>) -> (r: PathElement)
    requires
        opcode_arity(c) == Some(v@.len() as nat),
    ensures
        r@ == (c, numeral_views(v@)),
{
    let ghost v0 = v@;
    let mut v = v;
    if c == 'C' {
        assert(numeral_views(v0) == Seq::<Seq<char>>::empty());
        return PathElement::ClosePath(ClosePath {});
    }
    if c == 'S' || c == 'M' || c == 'L' {
        let y = v.pop().unwrap();
        let x = v.pop().unwrap();
        assert(v0 == seq![x, y]);
        let pos = STPos { x, y };
        assert(pos.numerals() == numeral_views(v0));
        if c == 'S' {
            PathElement::StartAt(StartAt { pos })
        } else if c == 'M' {
            PathElement::MoveTo(MoveTo { pos })
        } else {
            PathElement::LineTo(LineTo { pos })
        }
    } else if c == 'Q' {
        let y2 = v.pop().unwrap();
        let x2 = v.pop().unwrap();
        let y1 = v.pop().unwrap();
        let x1 = v.pop().unwrap();
        assert(v0 == seq![x1, y1, x2, y2]);
        let e = QuadraticBezierCurve { pos1: STPos { x: x1, y: y1 }, pos2: STPos { x: x2, y: y2 } };
        assert(e.pos1.numerals() + e.pos2.numerals() == numeral_views(v0));
        PathElement::QuadraticBezierCurve(e)
    } else if c == 'B' {
        let y3 = v.pop().unwrap();
        let x3 = v.pop().unwrap();
        let y2 = v.pop().unwrap();
        let x2 = v.pop().unwrap();
        let y1 = v.pop().unwrap();
        let x1 = v.pop().unwrap();
        assert(v0 == seq![x1, y1, x2, y2, x3, y3]);
        let e = CubicBezierCurve {
            pos1: STPos { x: x1, y: y1 },
            pos2: STPos { x: x2, y: y2 },
            pos3: STPos { x: x3, y: y3 },
        };
        assert(e.pos1.numerals() + e.pos2.numerals() + e.pos3.numerals() == numeral_views(v0));
        PathElement::CubicBezierCurve(e)
    } else {
        let y = v.pop().unwrap();
        let x = v.pop().unwrap();
        let sweep = v.pop().unwrap();
        let large = v.pop().unwrap();
        let angle = v.pop().unwrap();
        let ry = v.pop().unwrap();
        let rx = v.pop().unwrap();
        assert(v0 == seq![rx, ry, angle, large, sweep, x, y]);
        let e = EllipseArc { rx, ry, angle, large, sweep, pos: STPos { x, y } };
        assert(seq![e.rx@, e.ry@, e.angle@, e.large@, e.sweep@] + e.pos.numerals() == numeral_views(
            v0,
        ));
        PathElement::EllipseArc(e)
    }
}

/// The views of a sequence of path operations.
pub open spec fn element_views(v: Seq<PathElement>) -> Seq<(char, Seq<Seq<char>>)> {
    v.map_values(|e: PathElement| e@)
}

/// A path: its operations in the order written.
pub struct STPath {
    pub elements: Vec<PathElement>,
}

impl STPath {
    /// Decodes a path such as `"S 0 0 L 10 10 C"`.
    pub fn from_str(s: &str) -> (r: Result<STPath, ParseSTError>)
        ensures
            path_ops(ws_tokens(s@)) == match r {
                Ok(p) => Ok(element_views(p.elements@)),
                Err(e) => Err(e@),
            },
    {
        let toks = tokenize(s);
        let len = toks.len();
        let mut elements: Vec<PathElement> = Vec::new();
        let mut i: usize = 0;
        assert(views(toks@).skip(0) == views(toks@));
        assert(element_views(elements@) == Seq::<(char, Seq<Seq<char>>)>::empty());
        while i < len
            invariant
                len == toks@.len(),
                i <= len,
                views(toks@) == ws_tokens(s@),
                path_ops(ws_tokens(s@)) == prepend(
                    element_views(elements@),
                    path_ops(views(toks@).skip(i as int)),
                ),
            decreases len - i,
        {
            let ghost t = views(toks@).skip(i as int);
            assert(t[0] == toks@[i as int]@);
            let (c, n) = match opcode_of(&toks[i]) {
                Some(cn) => cn,
                None => {
                    return Err(ParseSTError::InvalidFormat);
                },
            };
            if len - i - 1 < n {
                return Err(ParseSTError::InvalidFormat);
            }
            assert(t.subrange(1, n + 1) == views(toks@).subrange(i + 1, i + 1 + n));
            let nums = match parse_numerals(&toks, i + 1, n) {
                Ok(nums) => nums,
                Err(e) => {
                    return Err(e);
                },
            };
            let el = make_element(c, nums);
            let ghost before = elements@;
            elements.push(el);
            proof {
                assert(t.skip(n + 1) == views(toks@).skip(i + 1 + n));
                assert(element_views(elements@) == element_views(before) + seq![el@]);
                match path_ops(t.skip(n + 1)) {
                    Ok(rest) => {
                        assert(element_views(before) + (seq![el@] + rest) == element_views(
                            elements@,
                        ) + rest);
                    },
                    Err(_) => {},
                }
            }
            i = i + 1 + n;
        }
        assert(views(toks@).skip(len as int) == Seq::<Seq<char>>::empty());
        assert(element_views(elements@) + seq![] == element_views(elements@));
        Ok(STPath { elements })
    }
}

/// The deltas that a delta sequence's tokens stand for, left to right:
/// `g count delta` stands for `repeat_count(count)` copies of `delta`, any
/// other token for itself.
pub open spec fn delta_values(t: Seq<Seq<char>>) -> Result<Seq<Seq<char>>, STErrorView>
    decreases t.len(),
{
    if t.len() == 0 {
        Ok(seq![])
    } else if t[0] == seq!['g'] {
        if t.len() < 2 {
            Err(STErrorView::InvalidFormat)
        } else if !is_numeral(t[1]) {
            Err(STErrorView::ParseFloat(t[1]))
        } else if t.len() < 3 {
            Err(STErrorView::InvalidFormat)
        } else if !is_numeral(t[2]) {
            Err(STErrorView::ParseFloat(t[2]))
        } else {
            prepend(Seq::new(repeat_count(t[1]), |k: int| t[2]), delta_values(t.skip(3)))
        }
    } else if !is_numeral(t[0]) {
        Err(STErrorView::ParseFloat(t[0]))
    } else {
        prepend(seq![t[0]], delta_values(t.skip(1)))
    }
}

/// Whether a token is the run-length marker `g`.
fn is_group_marker(tok: &String) -> (r: bool)
    ensures
        r == (tok@ == seq!['g']),
{
    let cs = chars_of(tok.as_str());
    let r = cs.len() == 1 && cs[0] == 'g';
    assert(r ==> tok@ == seq!['g']);
    r
}

/// The offsets between consecutive glyphs, with run-length groups expanded.
pub struct STDeltas {
    pub deltas: Vec<Numeral>,
}

impl STDeltas {
    /// Decodes a delta sequence such as `"g 3 5 2"`.
    pub fn from_str(s: &str) -> (r: Result<STDeltas, ParseSTError>)
        ensures
            delta_values(ws_tokens(s@)) == match r {
                Ok(d) => Ok(numeral_views(d.deltas@)),
                Err(e) => Err(e@),
            },
    {
        let toks = tokenize(s);
        let len = toks.len();
        let mut deltas: Vec<Numeral> = Vec::new();
        let mut i: usize = 0;
        assert(views(toks@).skip(0) == views(toks@));
        assert(numeral_views(deltas@) == Seq::<Seq<char>>::empty());
        while i < len
            invariant
                len == toks@.len(),
                i <= len,
                views(toks@) == ws_tokens(s@),
                delta_values(ws_tokens(s@)) == prepend(
                    numeral_views(deltas@),
                    delta_values(views(toks@).skip(i as int)),
                ),
            decreases len - i,
        {
            let ghost t = views(toks@).skip(i as int);
            let ghost before = numeral_views(deltas@);
            assert(t[0] == toks@[i as int]@);
            let step: usize;
            let ghost added: Seq<Seq<char>>;
            if is_group_marker(&toks[i]) {
                if len - i < 2 {
                    return Err(ParseSTError::InvalidFormat);
                }
                assert(t[1] == toks@[i + 1]@);
                let count = match Numeral::parse(toks[i + 1].as_str()) {
                    Some(c) => c,
                    None => {
                        return Err(ParseSTError::ParseFloatError(toks[i + 1].clone()));
                    },
                };
                if len - i < 3 {
                    return Err(ParseSTError::InvalidFormat);
                }
                assert(t[2] == toks@[i + 2]@);
                let delta = match Numeral::parse(toks[i + 2].as_str()) {
                    Some(d) => d,
                    None => {
                        return Err(ParseSTError::ParseFloatError(toks[i + 2].clone()));
                    },
                };
                let k = count.repeat_count();
                let mut j: u64 = 0;
                while j < k
                    invariant
                        j <= k,
                        numeral_views(deltas@) == before + Seq::new(j as nat, |m: int| t[2]),
                        delta@ == t[2],
                    decreases k - j,
                {
                    let ghost prev = deltas@;
                    deltas.push(delta.clone());
                    assert(numeral_views(deltas@) == numeral_views(prev).push(delta@));
                    assert(Seq::new((j + 1) as nat, |m: int| t[2]) == Seq::new(
                        j as nat,
                        |m: int| t[2],
                    ).push(t[2]));
                    j = j + 1;
                }
                proof {
                    added = Seq::new(repeat_count(t[1]), |m: int| t[2]);
                }
                step = 3;
            } else {
                let d = match Numeral::parse(toks[i].as_str()) {
                    Some(d) => d,
                    None => {
                        return Err(ParseSTError::ParseFloatError(toks[i].clone()));
                    },
                };
                let ghost prev = deltas@;
                deltas.push(d);
                assert(numeral_views(deltas@) == numeral_views(prev).push(t[0]));
                proof {
                    added = seq![t[0]];
                }
                step = 1;
            }
            proof {
                assert(numeral_views(deltas@) == before + added);
                assert(t.skip(step as int) == views(toks@).skip(i + step));
                match delta_values(t.skip(step as int)) {
                    Ok(rest) => {
                        assert(before + (added + rest) == (before + added) + rest);
                    },
                    Err(_) => {},
                }
            }
            i = i + step;
        }
        assert(views(toks@).skip(len as int) == Seq::<Seq<char>>::empty());
        assert(numeral_views(deltas@) + seq![] == numeral_views(deltas@));
        Ok(STDeltas { deltas })
    }
}

impl std::str::FromStr for STPos {
    type Err = ParseSTError;

    fn from_str(s: &str) -> Result<STPos, ParseSTError> {
        STPos::from_str(s)
    }
}

impl std::str::FromStr for STBox {
    type Err = ParseSTError;

    fn from_str(s: &str) -> Result<STBox, ParseSTError> {
        STBox::from_str(s)
    }
}

impl std::str::FromStr for STPath {
    type Err = ParseSTError;

    fn from_str(s: &str) -> Result<STPath, ParseSTError> {
        STPath::from_str(s)
    }
}

impl std::str::FromStr for STDeltas {
    type Err = ParseSTError;

    fn from_str(s: &str) -> Result<STDeltas, ParseSTError> {
        STDeltas::from_str(s)
    }
}

} // verus!
