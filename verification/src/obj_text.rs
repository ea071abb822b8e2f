//! Plain-text mesh export and import.
//!
//! A mesh is written as one `v x y z` line per vertex and one `f i j k`
//! line per triangle, indices 1-based, each line ended by a newline.
//! Coordinates are printed as fixed-point decimals with up to three
//! fractional digits (trailing zeros trimmed), matching the exact
//! thousandth-of-a-pixel units of `Vertex`. Parsing is the exact inverse:
//! the round-trip law `lemma_obj_round_trip` proves that re-reading an
//! exported mesh reproduces the identical vertex and index sequences.
//!
//! A malformed file is reported as a `ParseError` naming the offending
//! line, the character offset of the offending field within it, and
//! whether the fault was the line's leading token or a numeric field.

use vstd::prelude::*;

use crate::mesh::{Mesh, Vertex, VertexIndex};

verus! {

/// The decimal digit character of `d`.
pub open spec fn digit_char(d: int) -> char {
    if d == 0 {
        '0'
    } else if d == 1 {
        '1'
    } else if d == 2 {
        '2'
    } else if d == 3 {
        '3'
    } else if d == 4 {
        '4'
    } else if d == 5 {
        '5'
    } else if d == 6 {
        '6'
    } else if d == 7 {
        '7'
    } else if d == 8 {
        '8'
    } else {
        '9'
    }
}

/// The value of a decimal digit character, or -1 for any other character.
pub open spec fn digit_val(c: char) -> int {
    if c == '0' {
        0
    } else if c == '1' {
        1
    } else if c == '2' {
        2
    } else if c == '3' {
        3
    } else if c == '4' {
        4
    } else if c == '5' {
        5
    } else if c == '6' {
        6
    } else if c == '7' {
        7
    } else if c == '8' {
        8
    } else if c == '9' {
        9
    } else {
        -1
    }
}

/// The decimal digits of a non-negative number, most significant first.
pub open spec fn dec_digits(n: int) -> Seq<char>
    decreases n,
{
    if n < 10 {
        seq![digit_char(n)]
    } else {
        dec_digits(n / 10).push(digit_char(n % 10))
    }
}

/// The fractional part of a coordinate, in thousandths: empty for zero,
/// else a point followed by one to three digits with trailing zeros
/// trimmed.
pub open spec fn frac_part(f: int) -> Seq<char> {
    if f == 0 {
        Seq::<char>::empty()
    } else {
        let d1 = f / 100;
        let d2 = (f / 10) % 10;
        let d3 = f % 10;
        if d3 != 0 {
            seq!['.', digit_char(d1), digit_char(d2), digit_char(d3)]
        } else if d2 != 0 {
            seq!['.', digit_char(d1), digit_char(d2)]
        } else {
            seq!['.', digit_char(d1)]
        }
    }
}

/// A coordinate in thousandths, printed as a fixed-point decimal.
pub open spec fn fmt_milli(m: int) -> Seq<char> {
    let a = if m < 0 {
        -m
    } else {
        m
    };
    let sign = if m < 0 {
        seq!['-']
    } else {
        Seq::<char>::empty()
    };
    sign + dec_digits(a / 1000) + frac_part(a % 1000)
}

/// One vertex line, newline included.
pub open spec fn fmt_vertex_line(v: Vertex) -> Seq<char> {
    seq!['v', ' '] + fmt_milli(v.x as int) + seq![' '] + fmt_milli(v.y as int) + seq![' ']
        + fmt_milli(v.z as int) + seq!['\n']
}

/// One triangle line, 1-based indices, newline included.
pub open spec fn fmt_face_line(a: VertexIndex, b: VertexIndex, c: VertexIndex) -> Seq<char> {
    seq!['f', ' '] + dec_digits(a + 1) + seq![' '] + dec_digits(b + 1) + seq![' '] + dec_digits(
        c + 1,
    ) + seq!['\n']
}

/// The vertex lines of a mesh, in order.
pub open spec fn vertex_lines(vs: Seq<Vertex>) -> Seq<char>
    decreases vs.len(),
{
    if vs.len() == 0 {
        Seq::<char>::empty()
    } else {
        fmt_vertex_line(vs.first()) + vertex_lines(vs.drop_first())
    }
}

/// The triangle lines of a flattened index list, three indices per line.
pub open spec fn face_lines(fs: Seq<VertexIndex>) -> Seq<char>
    decreases fs.len(),
{
    if fs.len() < 3 {
        Seq::<char>::empty()
    } else {
        fmt_face_line(fs[0], fs[1], fs[2]) + face_lines(fs.skip(3))
    }
}

/// The whole text export of a mesh.
pub open spec fn obj_text_spec(vs: Seq<Vertex>, fs: Seq<VertexIndex>) -> Seq<char> {
    vertex_lines(vs) + face_lines(fs)
}

proof fn lemma_vertex_lines_snoc(vs: Seq<Vertex>, v: Vertex)
    ensures
        vertex_lines(vs.push(v)) == vertex_lines(vs) + fmt_vertex_line(v),
    decreases vs.len(),
{
    let p = vs.push(v);
    assert(p.len() == vs.len() + 1);
    assert(vertex_lines(p) == fmt_vertex_line(p.first()) + vertex_lines(p.drop_first()));
    if vs.len() == 0 {
        assert(p.first() == v);
        assert(p.drop_first() =~= Seq::<Vertex>::empty());
        assert(vertex_lines(p.drop_first()) == Seq::<char>::empty());
        assert(vertex_lines(vs) == Seq::<char>::empty());
        assert(vertex_lines(p) =~= vertex_lines(vs) + fmt_vertex_line(v));
    } else {
        assert(p.first() == vs.first());
        assert(p.drop_first() =~= vs.drop_first().push(v));
        lemma_vertex_lines_snoc(vs.drop_first(), v);
        assert(vertex_lines(vs) == fmt_vertex_line(vs.first()) + vertex_lines(vs.drop_first()));
        assert(vertex_lines(p) =~= vertex_lines(vs) + fmt_vertex_line(v));
    }
}

proof fn lemma_face_lines_snoc(fs: Seq<VertexIndex>, a: VertexIndex, b: VertexIndex, c: VertexIndex)
    requires
        fs.len() % 3 == 0,
    ensures
        face_lines(fs + seq![a, b, c]) == face_lines(fs) + fmt_face_line(a, b, c),
    decreases fs.len(),
{
    let ext = fs + seq![a, b, c];
    assert(ext.len() == fs.len() + 3);
    assert(face_lines(ext) == fmt_face_line(ext[0], ext[1], ext[2]) + face_lines(ext.skip(3)));
    if fs.len() == 0 {
        assert(ext[0] == a && ext[1] == b && ext[2] == c);
        assert(ext.skip(3) =~= Seq::<VertexIndex>::empty());
        assert(face_lines(ext.skip(3)) == Seq::<char>::empty());
        assert(face_lines(fs) == Seq::<char>::empty());
        assert(face_lines(ext) =~= face_lines(fs) + fmt_face_line(a, b, c));
    } else {
        assert(fs.len() >= 3);
        assert(ext[0] == fs[0] && ext[1] == fs[1] && ext[2] == fs[2]);
        assert(ext.skip(3) =~= fs.skip(3) + seq![a, b, c]);
        assert(fs.skip(3).len() % 3 == 0);
        lemma_face_lines_snoc(fs.skip(3), a, b, c);
        assert(face_lines(fs) == fmt_face_line(fs[0], fs[1], fs[2]) + face_lines(fs.skip(3)));
        assert(face_lines(ext) =~= face_lines(fs) + fmt_face_line(a, b, c));
    }
}

/// Appends one decimal digit character.
fn push_digit(s: &mut String, d: u64)
    requires
        d < 10,
    ensures
        final(s)@ == old(s)@ + seq![digit_char(d as int)],
{
    let t: &str = match d {
        0 => "0",
        1 => "1",
        2 => "2",
        3 => "3",
        4 => "4",
        5 => "5",
        6 => "6",
        7 => "7",
        8 => "8",
        _ => "9",
    };
    proof {
        reveal_strlit("0");
        reveal_strlit("1");
        reveal_strlit("2");
        reveal_strlit("3");
        reveal_strlit("4");
        reveal_strlit("5");
        reveal_strlit("6");
        reveal_strlit("7");
        reveal_strlit("8");
        reveal_strlit("9");
        assert(t@ =~= seq![digit_char(d as int)]);
    }
    s.append(t);
}

/// Appends the decimal digits of `n`.
fn push_u64(s: &mut String, n: u64)
    ensures
        final(s)@ == old(s)@ + dec_digits(n as int),
    decreases n,
{
    if n >= 10 {
        push_u64(s, n / 10);
        push_digit(s, n % 10);
        proof {
            assert(final(s)@ =~= old(s)@ + dec_digits(n as int));
        }
    } else {
        push_digit(s, n);
    }
}

/// Appends a coordinate as a fixed-point decimal.
fn push_milli(s: &mut String, m: i64)
    ensures
        final(s)@ == old(s)@ + fmt_milli(m as int),
{
    let a: u64 = if m < 0 {
        if m == i64::MIN {
            9223372036854775808u64
        } else {
            (-m) as u64
        }
    } else {
        m as u64
    };
    if m < 0 {
        proof {
            reveal_strlit("-");
            assert("-"@ =~= seq!['-']);
        }
        s.append("-");
    }
    let q = a / 1000;
    let f = a % 1000;
    push_u64(s, q);
    if f != 0 {
        proof {
            reveal_strlit(".");
            assert("."@ =~= seq!['.']);
        }
        s.append(".");
        let d1 = f / 100;
        let d2 = (f / 10) % 10;
        let d3 = f % 10;
        if d3 != 0 {
            push_digit(s, d1);
            push_digit(s, d2);
            push_digit(s, d3);
        } else if d2 != 0 {
            push_digit(s, d1);
            push_digit(s, d2);
        } else {
            push_digit(s, d1);
        }
    }
    proof {
        assert(final(s)@ =~= old(s)@ + fmt_milli(m as int));
    }
}

/// Serializes a mesh to the text format: the vertex lines in order, then
/// the triangle lines in order.
#[verifier::rlimit(60)]
pub fn to_obj_text(m: &Mesh) -> (r: String)
    requires
        m.faces@.len() % 3 == 0,
    ensures
        r@ == obj_text_spec(m.vertices@, m.faces@),
{
    let mut s = String::new();
    let nv = m.vertices.len();
    let mut i: usize = 0;
    while i < nv
        invariant
            nv == m.vertices@.len(),
            i <= nv,
            s@ == vertex_lines(m.vertices@.take(i as int)),
        decreases nv - i,
    {
        let v = m.vertices[i];
        proof {
            reveal_strlit("v ");
            assert("v "@ =~= seq!['v', ' ']);
            reveal_strlit(" ");
            assert(" "@ =~= seq![' ']);
            reveal_strlit("\n");
            assert("\n"@ =~= seq!['\n']);
        }
        s.append("v ");
        push_milli(&mut s, v.x);
        s.append(" ");
        push_milli(&mut s, v.y);
        s.append(" ");
        push_milli(&mut s, v.z);
        s.append("\n");
        proof {
            assert(m.vertices@.take(i + 1).drop_last() =~= m.vertices@.take(i as int));
            assert(m.vertices@.take(i + 1) =~= m.vertices@.take(i as int).push(
                m.vertices@[i as int],
            ));
            lemma_vertex_lines_snoc(m.vertices@.take(i as int), m.vertices@[i as int]);
            assert(s@ =~= vertex_lines(m.vertices@.take(i + 1)));
        }
        i += 1;
    }
    proof {
        assert(m.vertices@.take(nv as int) =~= m.vertices@);
    }
    let nf = m.faces.len();
    let mut j: usize = 0;
    while j < nf
        invariant
            nf == m.faces@.len(),
            nf % 3 == 0,
            j <= nf,
            j % 3 == 0,
            s@ == vertex_lines(m.vertices@) + face_lines(m.faces@.take(j as int)),
        decreases nf - j,
    {
        let a = m.faces[j];
        let b = m.faces[j + 1];
        let c = m.faces[j + 2];
        proof {
            reveal_strlit("f ");
            assert("f "@ =~= seq!['f', ' ']);
            reveal_strlit(" ");
            assert(" "@ =~= seq![' ']);
            reveal_strlit("\n");
            assert("\n"@ =~= seq!['\n']);
        }
        s.append("f ");
        push_u64(&mut s, a as u64 + 1);
        s.append(" ");
        push_u64(&mut s, b as u64 + 1);
        s.append(" ");
        push_u64(&mut s, c as u64 + 1);
        s.append("\n");
        proof {
            assert(m.faces@.take(j + 3) =~= m.faces@.take(j as int) + seq![
                m.faces@[j as int],
                m.faces@[j + 1],
                m.faces@[j + 2],
            ]);
            lemma_face_lines_snoc(
                m.faces@.take(j as int),
                m.faces@[j as int],
                m.faces@[j + 1],
                m.faces@[j + 2],
            );
            assert(s@ =~= vertex_lines(m.vertices@) + face_lines(m.faces@.take(j + 3)));
        }
        j += 3;
    }
    proof {
        assert(j == nf);
        assert(m.faces@.take(nf as int) =~= m.faces@);
    }
    s
}

/// Which part of a line failed to parse.
#[derive(Clone, Copy, PartialEq, Eq, Structural, Debug)]
pub enum ParseErrorKind {
    /// The line's leading token is neither `v` nor `f`.
    BadToken,
    /// A numeric field does not parse as a coordinate or a 1-based index.
    BadNumber,
}

/// A text-format fault: the 1-based line, the character offset of the
/// offending field within that line, and what was wrong.
#[derive(Clone, Copy, PartialEq, Eq, Structural, Debug)]
pub struct ParseError {
    pub line: usize,
    pub offset: usize,
    pub kind: ParseErrorKind,
}

/// One parsed line.
#[derive(Clone, Copy, PartialEq, Eq, Structural, Debug)]
pub enum ObjLine {
    Vert(Vertex),
    Tri(VertexIndex, VertexIndex, VertexIndex),
}

/// The index of the first space at or after `p`, or the line length.
pub open spec fn tok_end(line: Seq<char>, p: int) -> int
    decreases line.len() - p,
{
    if !(0 <= p < line.len()) {
        line.len() as int
    } else if line[p] == ' ' {
        p
    } else {
        tok_end(line, p + 1)
    }
}

/// The token starting at `p`: the characters up to the next space.
pub open spec fn tok_at(line: Seq<char>, p: int) -> Seq<char> {
    if !(0 <= p <= line.len()) {
        Seq::<char>::empty()
    } else {
        line.subrange(p, tok_end(line, p))
    }
}

/// The reported offset of the field starting at `p`, clamped to the line.
pub open spec fn off_at(line: Seq<char>, p: int) -> int {
    if p > line.len() {
        line.len() as int
    } else {
        p
    }
}

/// Where the token starting at `p` ends, clamped for out-of-line starts.
pub open spec fn tok_stop(line: Seq<char>, p: int) -> int {
    if p > line.len() {
        line.len() as int
    } else {
        tok_end(line, p)
    }
}

/// Bounds of `tok_end`: a token ends within the line, at or after its
/// start.
pub proof fn lemma_tok_end_bounds(line: Seq<char>, p: int)
    requires
        0 <= p <= line.len(),
    ensures
        p <= tok_end(line, p) <= line.len(),
    decreases line.len() - p,
{
    if p < line.len() && line[p] != ' ' {
        lemma_tok_end_bounds(line, p + 1);
    }
}

/// The index of the first newline at or after `p`, or the text length.
pub open spec fn line_end(text: Seq<char>, p: int) -> int
    decreases text.len() - p,
{
    if !(0 <= p < text.len()) {
        text.len() as int
    } else if text[p] == '\n' {
        p
    } else {
        line_end(text, p + 1)
    }
}

/// Bounds of `line_end`: a line ends within the text, at or after its
/// start.
pub proof fn lemma_line_end_bounds(text: Seq<char>, p: int)
    requires
        0 <= p <= text.len(),
    ensures
        p <= line_end(text, p) <= text.len(),
    decreases text.len() - p,
{
    if p < text.len() && text[p] != '\n' {
        lemma_line_end_bounds(text, p + 1);
    }
}

/// A non-empty, all-digit character sequence.
pub open spec fn is_digits(t: Seq<char>) -> bool {
    t.len() > 0 && forall|i: int| 0 <= i < t.len() ==> digit_val(#[trigger] t[i]) >= 0
}

/// The number the digit sequence denotes (junk digits count as -1).
pub open spec fn digits_val(t: Seq<char>) -> int
    decreases t.len(),
{
    if t.len() == 0 {
        0
    } else {
        digits_val(t.take(t.len() - 1)) * 10 + digit_val(t.last())
    }
}

/// The index of the first point in `t`, or its length.
pub open spec fn first_dot(t: Seq<char>) -> int
    decreases t.len(),
{
    if t.len() == 0 {
        0
    } else if t[0] == '.' {
        0
    } else {
        1 + first_dot(t.drop_first())
    }
}

/// The value in thousandths of one to three fractional digits.
pub open spec fn frac_val(fp: Seq<char>) -> int {
    if fp.len() == 1 {
        digit_val(fp[0]) * 100
    } else if fp.len() == 2 {
        digit_val(fp[0]) * 100 + digit_val(fp[1]) * 10
    } else if fp.len() == 3 {
        digit_val(fp[0]) * 100 + digit_val(fp[1]) * 10 + digit_val(fp[2])
    } else {
        0
    }
}

/// Parses a coordinate token: an optional minus sign, a non-empty integer
/// part, and an optional point followed by one to three fractional digits;
/// the value in thousandths must fit an `i64`. Anything else is rejected.
pub open spec fn parse_milli_tok(t: Seq<char>) -> Option<i64> {
    let neg = t.len() > 0 && t[0] == '-';
    let u = if neg {
        t.drop_first()
    } else {
        t
    };
    let d = first_dot(u);
    let ip = u.take(d);
    let fp = if d == u.len() {
        Seq::<char>::empty()
    } else {
        u.subrange(d + 1, u.len() as int)
    };
    if !is_digits(ip) {
        None
    } else if !(d == u.len() || (1 <= fp.len() <= 3 && is_digits(fp))) {
        None
    } else {
        let m = digits_val(ip) * 1000 + frac_val(fp);
        if neg && m <= 0x8000000000000000 {
            Some((-m) as i64)
        } else if !neg && m <= 0x7fffffffffffffff {
            Some(m as i64)
        } else {
            None
        }
    }
}

/// Parses a face-index token: a non-empty digit string whose value is
/// between 1 and 2^32, returned 0-based.
pub open spec fn parse_index_tok(t: Seq<char>) -> Option<VertexIndex> {
    if is_digits(t) && 1 <= digits_val(t) <= 0x100000000 {
        Some((digits_val(t) - 1) as VertexIndex)
    } else {
        None
    }
}

/// Parses one line: a leading `v` or `f` token, then three numeric fields
/// separated by single spaces; anything after the third field is ignored,
/// as a lenient reader would. The error is the offset of the offending
/// field and its kind.
pub open spec fn parse_line_spec(line: Seq<char>) -> Result<ObjLine, (int, ParseErrorKind)> {
    let e0 = tok_end(line, 0);
    let t0 = line.subrange(0, e0);
    if t0 == seq!['v'] {
        let p1 = e0 + 1;
        match parse_milli_tok(tok_at(line, p1)) {
            None => Err((off_at(line, p1), ParseErrorKind::BadNumber)),
            Some(x) => {
                let p2 = tok_stop(line, p1) + 1;
                match parse_milli_tok(tok_at(line, p2)) {
                    None => Err((off_at(line, p2), ParseErrorKind::BadNumber)),
                    Some(y) => {
                        let p3 = tok_stop(line, p2) + 1;
                        match parse_milli_tok(tok_at(line, p3)) {
                            None => Err((off_at(line, p3), ParseErrorKind::BadNumber)),
                            Some(z) => Ok(ObjLine::Vert(Vertex { x, y, z })),
                        }
                    },
                }
            },
        }
    } else if t0 == seq!['f'] {
        let p1 = e0 + 1;
        match parse_index_tok(tok_at(line, p1)) {
            None => Err((off_at(line, p1), ParseErrorKind::BadNumber)),
            Some(a) => {
                let p2 = tok_stop(line, p1) + 1;
                match parse_index_tok(tok_at(line, p2)) {
                    None => Err((off_at(line, p2), ParseErrorKind::BadNumber)),
                    Some(b) => {
                        let p3 = tok_stop(line, p2) + 1;
                        match parse_index_tok(tok_at(line, p3)) {
                            None => Err((off_at(line, p3), ParseErrorKind::BadNumber)),
                            Some(c) => Ok(ObjLine::Tri(a, b, c)),
                        }
                    },
                }
            },
        }
    } else {
        Err((0, ParseErrorKind::BadToken))
    }
}

/// Parses the text from `pos` on, line by line; a trailing newline leaves
/// no final empty line.
pub open spec fn spec_parse_from(
    text: Seq<char>,
    pos: int,
    lineno: int,
    vs: Seq<Vertex>,
    fs: Seq<VertexIndex>,
) -> Result<(Seq<Vertex>, Seq<VertexIndex>), (int, int, ParseErrorKind)>
    decreases text.len() + 1 - pos,
        via spec_parse_from_decreases
{
    if !(0 <= pos < text.len()) {
        Ok((vs, fs))
    } else {
        let le = line_end(text, pos);
        let line = text.subrange(pos, le);
        match parse_line_spec(line) {
            Err((off, kind)) => Err((lineno, off, kind)),
            Ok(ObjLine::Vert(v)) => spec_parse_from(text, le + 1, lineno + 1, vs.push(v), fs),
            Ok(ObjLine::Tri(a, b, c)) => spec_parse_from(
                text,
                le + 1,
                lineno + 1,
                vs,
                fs.push(a).push(b).push(c),
            ),
        }
    }
}

#[via_fn]
proof fn spec_parse_from_decreases(
    text: Seq<char>,
    pos: int,
    lineno: int,
    vs: Seq<Vertex>,
    fs: Seq<VertexIndex>,
) {
    if 0 <= pos < text.len() {
        lemma_line_end_bounds(text, pos);
    }
}

/// The whole parse of a mesh text.
pub open spec fn spec_parse(text: Seq<char>) -> Result<
    (Seq<Vertex>, Seq<VertexIndex>),
    (int, int, ParseErrorKind),
> {
    spec_parse_from(text, 0, 1, Seq::<Vertex>::empty(), Seq::<VertexIndex>::empty())
}

proof fn lemma_digits_val_nonneg(t: Seq<char>)
    requires
        forall|i: int| 0 <= i < t.len() ==> digit_val(#[trigger] t[i]) >= 0,
    ensures
        digits_val(t) >= 0,
    decreases t.len(),
{
    if t.len() > 0 {
        assert forall|i: int|
            0 <= i < t.take(t.len() - 1).len() implies digit_val(
            #[trigger] t.take(t.len() - 1)[i],
        ) >= 0 by {
            assert(t.take(t.len() - 1)[i] == t[i]);
        }
        lemma_digits_val_nonneg(t.take(t.len() - 1));
    }
}

/// A digit string's value only grows as digits are appended.
proof fn lemma_digits_val_extend(t: Seq<char>, k: int)
    requires
        0 <= k <= t.len(),
        forall|i: int| 0 <= i < t.len() ==> digit_val(#[trigger] t[i]) >= 0,
    ensures
        digits_val(t) >= digits_val(t.take(k)),
    decreases t.len(),
{
    if k < t.len() {
        let h = t.take(t.len() - 1);
        assert forall|i: int| 0 <= i < h.len() implies digit_val(#[trigger] h[i]) >= 0 by {
            assert(h[i] == t[i]);
        }
        lemma_digits_val_nonneg(h);
        lemma_digits_val_extend(h, k);
        assert(h.take(k) =~= t.take(k));
        assert(digit_val(t[t.len() - 1]) >= 0);
        assert(digits_val(t) == digits_val(h) * 10 + digit_val(t.last()));
        assert(digits_val(h) * 10 + digit_val(t.last()) >= digits_val(h));
        assert(digits_val(h) >= digits_val(h.take(k)));
    } else {
        assert(t.take(k) =~= t);
    }
}

proof fn lemma_first_dot_props(u: Seq<char>)
    ensures
        0 <= first_dot(u) <= u.len(),
        first_dot(u) < u.len() ==> u[first_dot(u)] == '.',
        forall|j: int| 0 <= j < first_dot(u) ==> u[j] != '.',
    decreases u.len(),
{
    if u.len() > 0 && u[0] != '.' {
        lemma_first_dot_props(u.drop_first());
        assert forall|j: int| 0 <= j < first_dot(u) implies u[j] != '.' by {
            if j > 0 {
                assert(u.drop_first()[j - 1] == u[j]);
            }
        }
    }
}

proof fn lemma_first_dot_ge(u: Seq<char>, k: int)
    requires
        0 <= k <= u.len(),
        forall|j: int| 0 <= j < k ==> (#[trigger] u[j]) != '.',
    ensures
        first_dot(u) >= k,
    decreases k,
{
    if k > 0 {
        assert(u[0] != '.');
        let d = u.drop_first();
        assert forall|j: int| 0 <= j < k - 1 implies (#[trigger] d[j]) != '.' by {
            assert(d[j] == u[j + 1]);
        }
        lemma_first_dot_ge(d, k - 1);
        assert(first_dot(u) == 1 + first_dot(d));
    } else {
        lemma_first_dot_props(u);
    }
}

/// The sign split of a coordinate token.
spec fn milli_u(t: Seq<char>) -> Seq<char> {
    if t.len() > 0 && t[0] == '-' {
        t.drop_first()
    } else {
        t
    }
}

spec fn milli_s0(t: Seq<char>) -> int {
    if t.len() > 0 && t[0] == '-' {
        1
    } else {
        0
    }
}

proof fn lemma_milli_u_index(t: Seq<char>)
    ensures
        milli_u(t).len() == t.len() - milli_s0(t),
        forall|j: int| 0 <= j < milli_u(t).len() ==> milli_u(t)[j] == t[j + milli_s0(t)],
{
}

/// An empty or junk-led integer part rejects the token.
proof fn lemma_milli_bad_int(t: Seq<char>, i: int)
    requires
        milli_s0(t) <= i <= t.len(),
        forall|j: int| milli_s0(t) <= j < i ==> digit_val(#[trigger] t[j]) >= 0,
        (i == milli_s0(t) && (i == t.len() || t[i] == '.')) || (i < t.len() && t[i] != '.'
            && digit_val(t[i]) < 0),
    ensures
        parse_milli_tok(t) is None,
{
    let s0 = milli_s0(t);
    let u = milli_u(t);
    lemma_milli_u_index(t);
    lemma_first_dot_props(u);
    let d = first_dot(u);
    let ip = u.take(d);
    if i == s0 && (i == t.len() || t[i] == '.') {
        if i == t.len() {
            assert(u.len() == 0);
            assert(ip.len() == 0);
        } else {
            assert(u[0] == '.');
            assert(d == 0);
            assert(ip.len() == 0);
        }
        assert(!is_digits(ip));
    } else {
        // the first junk character sits inside the integer part
        assert forall|j: int| 0 <= j < i - s0 implies (#[trigger] u[j]) != '.' by {
            assert(u[j] == t[j + s0]);
            assert(digit_val(t[j + s0]) >= 0);
        }
        assert(u[i - s0] == t[i]);
        assert(u[i - s0] != '.');
        lemma_first_dot_ge(u, i - s0 + 1);
        assert(ip.len() > i - s0);
        assert(ip[i - s0] == u[i - s0]);
        assert(digit_val(ip[i - s0]) < 0);
        assert(!is_digits(ip));
    }
}

/// A too-large integer part rejects the token, wherever the digit run
/// ends.
proof fn lemma_milli_overflow(t: Seq<char>, k: int)
    requires
        milli_s0(t) <= k <= t.len(),
        forall|j: int| milli_s0(t) <= j < k ==> digit_val(#[trigger] t[j]) >= 0,
        digits_val(t.subrange(milli_s0(t), k)) > 9223372036854775,
    ensures
        parse_milli_tok(t) is None,
{
    let s0 = milli_s0(t);
    let u = milli_u(t);
    lemma_milli_u_index(t);
    lemma_first_dot_props(u);
    let d = first_dot(u);
    let ip = u.take(d);
    let fp = if d == u.len() {
        Seq::<char>::empty()
    } else {
        u.subrange(d + 1, u.len() as int)
    };
    if is_digits(ip) {
        if d < k - s0 {
            assert(u[d] == '.');
            assert(u[d] == t[d + s0]);
            assert(digit_val(t[d + s0]) >= 0);
            assert(false);
        }
        assert forall|i: int| 0 <= i < ip.len() implies digit_val(#[trigger] ip[i]) >= 0 by {}
        lemma_digits_val_extend(ip, k - s0);
        assert(ip.take(k - s0) =~= t.subrange(s0, k));
        assert(digits_val(ip) > 9223372036854775);
        if d == u.len() || (1 <= fp.len() <= 3 && is_digits(fp)) {
            if fp.len() > 0 {
                assert(digit_val(fp[0]) >= 0);
                if fp.len() >= 2 {
                    assert(digit_val(fp[1]) >= 0);
                }
                if fp.len() >= 3 {
                    assert(digit_val(fp[2]) >= 0);
                }
            }
            assert(frac_val(fp) >= 0);
            assert(digits_val(ip) * 1000 + frac_val(fp) > 0x8000000000000000);
        }
    }
}

/// A missing, junk-bearing or overlong fractional part rejects the token.
proof fn lemma_milli_bad_frac(t: Seq<char>, i: int, j: int)
    requires
        milli_s0(t) < i < t.len(),
        forall|k: int| milli_s0(t) <= k < i ==> digit_val(#[trigger] t[k]) >= 0,
        t[i] == '.',
        i < j <= t.len() || j == i + 1,
        i + 1 <= j <= t.len(),
        forall|k: int| i + 1 <= k < j ==> digit_val(#[trigger] t[k]) >= 0,
        (j == i + 1 && j == t.len()) || (j < t.len() && digit_val(t[j]) < 0) || (j >= i + 4 && j
            < t.len()),
    ensures
        parse_milli_tok(t) is None,
{
    let s0 = milli_s0(t);
    let u = milli_u(t);
    lemma_milli_u_index(t);
    lemma_first_dot_props(u);
    assert forall|k: int| 0 <= k < i - s0 implies (#[trigger] u[k]) != '.' by {
        assert(u[k] == t[k + s0]);
        assert(digit_val(t[k + s0]) >= 0);
    }
    lemma_first_dot_ge(u, i - s0);
    assert(u[i - s0] == '.');
    let d = first_dot(u);
    assert(d == i - s0);
    let fp = u.subrange(d + 1, u.len() as int);
    assert(fp.len() == t.len() - i - 1);
    if j == i + 1 && j == t.len() {
        assert(fp.len() == 0);
    } else if j < t.len() && digit_val(t[j]) < 0 {
        if fp.len() <= 3 {
            assert(fp[j - i - 1] == u[j - s0]);
            assert(u[j - s0] == t[j]);
            assert(!is_digits(fp));
        }
    } else {
        assert(fp.len() >= 3 + (t.len() - j));
        assert(fp.len() > 3);
    }
}

/// The value of a well-formed coordinate token.
proof fn lemma_milli_value(t: Seq<char>, i: int)
    requires
        milli_s0(t) < i <= t.len(),
        forall|k: int| milli_s0(t) <= k < i ==> digit_val(#[trigger] t[k]) >= 0,
        i == t.len() || t[i] == '.',
        i < t.len() ==> i + 2 <= t.len() <= i + 4,
        forall|k: int| i + 1 <= k < t.len() ==> digit_val(#[trigger] t[k]) >= 0,
    ensures
        ({
            let q = digits_val(t.subrange(milli_s0(t), i));
            let f = if i == t.len() {
                0
            } else {
                frac_val(t.subrange(i + 1, t.len() as int))
            };
            let m = q * 1000 + f;
            let neg = milli_s0(t) == 1;
            parse_milli_tok(t) == (if neg && m <= 0x8000000000000000 {
                Some((-m) as i64)
            } else if !neg && m <= 0x7fffffffffffffff {
                Some(m as i64)
            } else {
                None::<i64>
            })
        }),
{
    let s0 = milli_s0(t);
    let u = milli_u(t);
    lemma_milli_u_index(t);
    lemma_first_dot_props(u);
    assert forall|k: int| 0 <= k < i - s0 implies (#[trigger] u[k]) != '.' by {
        assert(u[k] == t[k + s0]);
        assert(digit_val(t[k + s0]) >= 0);
    }
    lemma_first_dot_ge(u, i - s0);
    let d = first_dot(u);
    if i == t.len() {
        assert(d == u.len());
    } else {
        assert(u[i - s0] == '.');
        assert(d == i - s0);
    }
    let ip = u.take(d);
    assert(ip =~= t.subrange(s0, i));
    assert(is_digits(ip)) by {
        assert(ip.len() == i - s0 > 0);
        assert forall|k: int| 0 <= k < ip.len() implies digit_val(#[trigger] ip[k]) >= 0 by {
            assert(ip[k] == t[k + s0]);
        }
    }
    if i < t.len() {
        let fp = u.subrange(d + 1, u.len() as int);
        assert(fp =~= t.subrange(i + 1, t.len() as int));
        assert(1 <= fp.len() <= 3);
        assert(is_digits(fp)) by {
            assert forall|k: int| 0 <= k < fp.len() implies digit_val(#[trigger] fp[k]) >= 0 by {
                assert(fp[k] == t[k + i + 1]);
            }
        }
    }
}

/// The digit value of the character at `i`, if it is a digit.
fn digit_at(t: &str, i: usize) -> (r: Option<u64>)
    requires
        i < t@.len(),
    ensures
        match r {
            Some(d) => digit_val(t@[i as int]) == d,
            None => digit_val(t@[i as int]) < 0,
        },
{
    let c = t.get_char(i);
    match c {
        '0' => Some(0),
        '1' => Some(1),
        '2' => Some(2),
        '3' => Some(3),
        '4' => Some(4),
        '5' => Some(5),
        '6' => Some(6),
        '7' => Some(7),
        '8' => Some(8),
        '9' => Some(9),
        _ => None,
    }
}

/// Parses a coordinate token; the exact inverse of the fixed-point
/// formatter, per `parse_milli_tok`.
fn parse_milli_str(t: &str) -> (r: Option<i64>)
    requires
        t@.len() < usize::MAX,
    ensures
        r == parse_milli_tok(t@),
{
    let n = t.unicode_len();
    let neg = n > 0 && t.get_char(0) == '-';
    let s0: usize = if neg {
        1
    } else {
        0
    };
    proof {
        assert(milli_s0(t@) == s0);
    }
    let mut i: usize = s0;
    let mut q: u64 = 0;
    let mut stopped = false;
    while !stopped && i < n
        invariant
            n == t@.len(),
            n < usize::MAX,
            s0 == milli_s0(t@),
            s0 <= i <= n,
            q <= 9223372036854775,
            q == digits_val(t@.subrange(s0 as int, i as int)),
            forall|j: int| s0 <= j < i ==> digit_val(#[trigger] t@[j]) >= 0,
            stopped ==> i < n && digit_val(t@[i as int]) < 0,
        decreases n - i + (if stopped { 0int } else { 1int }),
    {
        match digit_at(t, i) {
            Some(d) => {
                let newq = q * 10 + d;
                if newq > 9223372036854775 {
                    proof {
                        let sub = t@.subrange(s0 as int, i + 1);
                        assert(sub.take(sub.len() - 1) =~= t@.subrange(s0 as int, i as int));
                        assert(sub.last() == t@[i as int]);
                        assert(digits_val(sub) == newq);
                        lemma_milli_overflow(t@, i + 1);
                    }
                    return None;
                }
                proof {
                    let sub = t@.subrange(s0 as int, i + 1);
                    assert(sub.take(sub.len() - 1) =~= t@.subrange(s0 as int, i as int));
                    assert(sub.last() == t@[i as int]);
                    assert(digits_val(sub) == newq);
                }
                q = newq;
                i += 1;
            },
            None => {
                stopped = true;
            },
        }
    }
    // the digit run ends at i: either the token is spent, or a point or a
    // junk character follows
    if i == s0 {
        if i >= n {
            proof {
                lemma_milli_bad_int(t@, i as int);
            }
            return None;
        }
        let c = t.get_char(i);
        proof {
            if c == '.' || digit_val(t@[i as int]) < 0 {
                lemma_milli_bad_int(t@, i as int);
            }
        }
        return None;
    }
    let mut f: u64 = 0;
    if i < n {
        let c = t.get_char(i);
        if c != '.' {
            proof {
                lemma_milli_bad_int(t@, i as int);
            }
            return None;
        }
        // fractional digits
        let fstart = i + 1;
        let mut j: usize = fstart;
        let mut cnt: usize = 0;
        let mut scale: u64 = 100;
        let mut fstopped = false;
        while !fstopped && j < n && cnt < 3
            invariant
                n == t@.len(),
                n < usize::MAX,
                s0 == milli_s0(t@),
                s0 < i < n,
                t@[i as int] == '.',
                forall|k: int| s0 <= k < i ==> digit_val(#[trigger] t@[k]) >= 0,
                fstart == i + 1,
                fstart <= j <= n,
                cnt == j - fstart,
                cnt <= 3,
                forall|k: int| fstart <= k < j ==> digit_val(#[trigger] t@[k]) >= 0,
                f == frac_val(t@.subrange(fstart as int, j as int)),
                f <= 999,
                scale == (if cnt == 0 {
                    100int
                } else if cnt == 1 {
                    10int
                } else if cnt == 2 {
                    1int
                } else {
                    0int
                }),
                fstopped ==> j < n && digit_val(t@[j as int]) < 0,
            decreases n - j + (if fstopped { 0int } else { 1int }),
        {
            match digit_at(t, j) {
                Some(d) => {
                    proof {
                        let sub = t@.subrange(fstart as int, j + 1);
                        assert(sub[0] == t@[fstart as int]);
                        if cnt >= 1 {
                            assert(sub[1] == t@[fstart + 1]);
                        }
                        if cnt >= 2 {
                            assert(sub[2] == t@[fstart + 2]);
                        }
                        assert(frac_val(sub) == f + d * scale);
                    }
                    f = f + d * scale;
                    scale = scale / 10;
                    cnt += 1;
                    j += 1;
                },
                None => {
                    fstopped = true;
                },
            }
        }
        if j < n {
            // a junk character or a fourth fractional character
            proof {
                if fstopped {
                    lemma_milli_bad_frac(t@, i as int, j as int);
                } else {
                    assert(cnt == 3);
                    lemma_milli_bad_frac(t@, i as int, j as int);
                }
            }
            return None;
        }
        if cnt == 0 {
            proof {
                lemma_milli_bad_frac(t@, i as int, j as int);
            }
            return None;
        }
        proof {
            assert(t@.subrange(fstart as int, n as int) == t@.subrange(
                fstart as int,
                j as int,
            ));
            lemma_milli_value(t@, i as int);
        }
    } else {
        proof {
            lemma_milli_value(t@, i as int);
        }
    }
    let m = q * 1000 + f;
    if neg {
        if m <= 9223372036854775808 {
            if m == 9223372036854775808 {
                Some(i64::MIN)
            } else {
                Some(-(m as i64))
            }
        } else {
            None
        }
    } else {
        if m <= 9223372036854775807 {
            Some(m as i64)
        } else {
            None
        }
    }
}

/// Parses a face-index token, per `parse_index_tok`.
fn parse_index_str(t: &str) -> (r: Option<VertexIndex>)
    requires
        t@.len() < usize::MAX,
    ensures
        r == parse_index_tok(t@),
{
    let n = t.unicode_len();
    if n == 0 {
        return None;
    }
    let mut i: usize = 0;
    let mut v: u64 = 0;
    while i < n
        invariant
            n == t@.len(),
            0 < n < usize::MAX,
            i <= n,
            v <= 0x100000000,
            v == digits_val(t@.subrange(0, i as int)),
            forall|j: int| 0 <= j < i ==> digit_val(#[trigger] t@[j]) >= 0,
        decreases n - i,
    {
        match digit_at(t, i) {
            Some(d) => {
                let newv = v * 10 + d;
                proof {
                    let sub = t@.subrange(0, i + 1);
                    assert(sub.take(sub.len() - 1) =~= t@.subrange(0, i as int));
                    assert(sub.last() == t@[i as int]);
                    assert(digits_val(sub) == newv);
                }
                if newv > 0x100000000 {
                    proof {
                        assert forall|k: int|
                            0 <= k < t@.len() implies digit_val(#[trigger] t@[k]) >= 0 || !is_digits(
                            t@,
                        ) by {}
                        if is_digits(t@) {
                            lemma_digits_val_extend(t@, i + 1);
                            assert(t@.take(i + 1) =~= t@.subrange(0, i + 1));
                            assert(digits_val(t@) > 0x100000000);
                        }
                    }
                    return None;
                }
                v = newv;
                i += 1;
            },
            None => {
                proof {
                    assert(digit_val(t@[i as int]) < 0);
                    assert(!is_digits(t@));
                }
                return None;
            },
        }
    }
    proof {
        assert(t@.subrange(0, n as int) =~= t@);
        assert(is_digits(t@));
    }
    if v == 0 {
        None
    } else {
        Some((v - 1) as VertexIndex)
    }
}

/// Scans to the end of the token starting at `p`.
fn token_end_exec(line: &str, n: usize, p: usize) -> (r: usize)
    requires
        n == line@.len(),
        p <= n,
    ensures
        r == tok_end(line@, p as int),
        p <= r <= n,
{
    let mut i: usize = p;
    while i < n
        invariant
            n == line@.len(),
            p <= i <= n,
            tok_end(line@, p as int) == tok_end(line@, i as int),
        decreases n - i,
    {
        if line.get_char(i) == ' ' {
            return i;
        }
        i += 1;
    }
    n
}

/// Scans to the end of the line starting at `p`.
fn line_end_exec(text: &str, n: usize, p: usize) -> (r: usize)
    requires
        n == text@.len(),
        p <= n,
    ensures
        r == line_end(text@, p as int),
        p <= r <= n,
{
    let mut i: usize = p;
    while i < n
        invariant
            n == text@.len(),
            p <= i <= n,
            line_end(text@, p as int) == line_end(text@, i as int),
        decreases n - i,
    {
        if text.get_char(i) == '\n' {
            return i;
        }
        i += 1;
    }
    n
}

/// Reads the coordinate field starting at `p`; on success also returns
/// the start of the following field.
fn milli_field(line: &str, n: usize, p: usize) -> (r: Result<(i64, usize), usize>)
    requires
        n == line@.len(),
        n < usize::MAX - 1,
        p <= n + 1,
    ensures
        match r {
            Ok((x, pnext)) => parse_milli_tok(tok_at(line@, p as int)) == Some(x) && pnext
                == tok_stop(line@, p as int) + 1 && pnext <= n + 1,
            Err(off) => parse_milli_tok(tok_at(line@, p as int)) is None && off == off_at(
                line@,
                p as int,
            ),
        },
{
    if p > n {
        proof {
            assert(tok_at(line@, p as int) =~= Seq::<char>::empty());
            lemma_milli_bad_int(Seq::<char>::empty(), 0);
        }
        return Err(n);
    }
    let e = token_end_exec(line, n, p);
    let tok = line.substring_char(p, e);
    proof {
        assert(tok@ =~= tok_at(line@, p as int));
    }
    match parse_milli_str(tok) {
        Some(x) => Ok((x, e + 1)),
        None => Err(p),
    }
}

/// Reads the index field starting at `p`; on success also returns the
/// start of the following field.
fn index_field(line: &str, n: usize, p: usize) -> (r: Result<(VertexIndex, usize), usize>)
    requires
        n == line@.len(),
        n < usize::MAX - 1,
        p <= n + 1,
    ensures
        match r {
            Ok((x, pnext)) => parse_index_tok(tok_at(line@, p as int)) == Some(x) && pnext
                == tok_stop(line@, p as int) + 1 && pnext <= n + 1,
            Err(off) => parse_index_tok(tok_at(line@, p as int)) is None && off == off_at(
                line@,
                p as int,
            ),
        },
{
    if p > n {
        proof {
            assert(tok_at(line@, p as int) =~= Seq::<char>::empty());
        }
        return Err(n);
    }
    let e = token_end_exec(line, n, p);
    let tok = line.substring_char(p, e);
    proof {
        assert(tok@ =~= tok_at(line@, p as int));
    }
    match parse_index_str(tok) {
        Some(x) => Ok((x, e + 1)),
        None => Err(p),
    }
}

/// Parses one line, per `parse_line_spec`.
fn parse_line_str(line: &str) -> (r: Result<ObjLine, (usize, ParseErrorKind)>)
    requires
        line@.len() < usize::MAX - 1,
    ensures
        match r {
            Ok(l) => parse_line_spec(line@) == Ok::<ObjLine, (int, ParseErrorKind)>(l),
            Err((off, kind)) => parse_line_spec(line@) == Err::<ObjLine, (int, ParseErrorKind)>(
                (off as int, kind),
            ),
        },
{
    let n = line.unicode_len();
    let e0 = token_end_exec(line, n, 0);
    let ghost t0 = line@.subrange(0, tok_end(line@, 0));
    let is_v = e0 == 1 && line.get_char(0) == 'v';
    let is_f = e0 == 1 && !is_v && line.get_char(0) == 'f';
    proof {
        if e0 == 1 {
            assert(t0 =~= seq![line@[0]]);
            if line@[0] == 'v' {
                assert(t0 =~= seq!['v']);
            } else if line@[0] == 'f' {
                assert(t0 =~= seq!['f']);
                assert(t0 != seq!['v']) by {
                    assert(t0[0] == 'f');
                }
            } else {
                assert(t0 != seq!['v']) by {
                    assert(t0[0] == line@[0]);
                }
                assert(t0 != seq!['f']) by {
                    assert(t0[0] == line@[0]);
                }
            }
        } else {
            assert(t0.len() != 1);
            assert(t0 != seq!['v']);
            assert(t0 != seq!['f']);
        }
    }
    if is_v {
        let p1 = e0 + 1;
        match milli_field(line, n, p1) {
            Err(off) => Err((off, ParseErrorKind::BadNumber)),
            Ok((x, p2)) => match milli_field(line, n, p2) {
                Err(off) => Err((off, ParseErrorKind::BadNumber)),
                Ok((y, p3)) => match milli_field(line, n, p3) {
                    Err(off) => Err((off, ParseErrorKind::BadNumber)),
                    Ok((z, _)) => Ok(ObjLine::Vert(Vertex { x, y, z })),
                },
            },
        }
    } else if is_f {
        let p1 = e0 + 1;
        match index_field(line, n, p1) {
            Err(off) => Err((off, ParseErrorKind::BadNumber)),
            Ok((a, p2)) => match index_field(line, n, p2) {
                Err(off) => Err((off, ParseErrorKind::BadNumber)),
                Ok((b, p3)) => match index_field(line, n, p3) {
                    Err(off) => Err((off, ParseErrorKind::BadNumber)),
                    Ok((c, _)) => Ok(ObjLine::Tri(a, b, c)),
                },
            },
        }
    } else {
        Err((0, ParseErrorKind::BadToken))
    }
}

/// Parses a mesh text: one `v` or `f` line per vertex or triangle, per
/// `spec_parse`. Vertices and triangle indices are collected in file
/// order; the first malformed line aborts the parse with a `ParseError`
/// naming the 1-based line and the character offset of the offending
/// field. No validity check ties indices to the vertex count, as a mesh
/// text may reference vertices supplied elsewhere.
pub fn from_obj_text(text: &str) -> (r: Result<Mesh, ParseError>)
    requires
        text@.len() < usize::MAX - 1,
    ensures
        match r {
            Ok(m) => spec_parse(text@) == Ok::<
                (Seq<Vertex>, Seq<VertexIndex>),
                (int, int, ParseErrorKind),
            >((m.vertices@, m.faces@)),
            Err(e) => spec_parse(text@) == Err::<
                (Seq<Vertex>, Seq<VertexIndex>),
                (int, int, ParseErrorKind),
            >((e.line as int, e.offset as int, e.kind)),
        },
{
    let n = text.unicode_len();
    let mut vertices: Vec<Vertex> = Vec::new();
    let mut faces: Vec<VertexIndex> = Vec::new();
    let mut pos: usize = 0;
    let mut lineno: usize = 1;
    while pos < n
        invariant
            n == text@.len(),
            n < usize::MAX - 1,
            pos <= n + 1,
            1 <= lineno <= pos + 1,
            spec_parse(text@) == spec_parse_from(
                text@,
                pos as int,
                lineno as int,
                vertices@,
                faces@,
            ),
        decreases n + 1 - pos,
    {
        let le = line_end_exec(text, n, pos);
        let line = text.substring_char(pos, le);
        proof {
            assert(line@ == text@.subrange(pos as int, line_end(text@, pos as int)));
        }
        match parse_line_str(line) {
            Err((off, kind)) => {
                return Err(ParseError { line: lineno, offset: off, kind });
            },
            Ok(ObjLine::Vert(v)) => {
                vertices.push(v);
            },
            Ok(ObjLine::Tri(a, b, c)) => {
                faces.push(a);
                faces.push(b);
                faces.push(c);
            },
        }
        pos = le + 1;
        lineno += 1;
    }
    Ok(Mesh::from_geometry(vertices, faces))
}

proof fn lemma_digit_not_special(c: char)
    requires
        digit_val(c) >= 0,
    ensures
        c != ' ' && c != '\n' && c != '.' && c != '-',
{
}

proof fn lemma_dec_digits_chars(n: int)
    requires
        n >= 0,
    ensures
        dec_digits(n).len() >= 1,
        forall|i: int| 0 <= i < dec_digits(n).len() ==> digit_val(#[trigger] dec_digits(n)[i]) >= 0,
    decreases n,
{
    if n < 10 {
        assert(digit_val(digit_char(n)) >= 0);
        assert(dec_digits(n)[0] == digit_char(n));
    } else {
        lemma_dec_digits_chars(n / 10);
        let h = dec_digits(n / 10);
        assert forall|i: int|
            0 <= i < dec_digits(n).len() implies digit_val(#[trigger] dec_digits(n)[i]) >= 0 by {
            if i < h.len() {
                assert(dec_digits(n)[i] == h[i]);
            } else {
                assert(dec_digits(n)[i] == digit_char(n % 10));
            }
        }
    }
}

proof fn lemma_digits_roundtrip(n: int)
    requires
        n >= 0,
    ensures
        digits_val(dec_digits(n)) == n,
    decreases n,
{
    if n < 10 {
        let t = dec_digits(n);
        assert(t.take(t.len() - 1) =~= Seq::<char>::empty());
        assert(t.last() == digit_char(n));
        assert(digit_val(digit_char(n)) == n);
        assert(digits_val(t) == digits_val(Seq::<char>::empty()) * 10 + n);
    } else {
        lemma_digits_roundtrip(n / 10);
        let t = dec_digits(n);
        lemma_dec_digits_chars(n / 10);
        assert(t.take(t.len() - 1) =~= dec_digits(n / 10));
        assert(t.last() == digit_char(n % 10));
        assert(digit_val(digit_char(n % 10)) == n % 10);
        assert(digits_val(t) == (n / 10) * 10 + n % 10);
    }
}

/// The characters of a formatted coordinate: no spaces, no newlines, and
/// a leading character that is a digit or the minus sign.
proof fn lemma_fmt_milli_chars(m: int)
    ensures
        fmt_milli(m).len() >= 1,
        forall|i: int|
            0 <= i < fmt_milli(m).len() ==> (#[trigger] fmt_milli(m)[i]) != ' ' && fmt_milli(m)[i]
                != '\n',
{
    let a = if m < 0 {
        -m
    } else {
        m
    };
    lemma_dec_digits_chars(a / 1000);
    let t = fmt_milli(m);
    let sign: Seq<char> = if m < 0 {
        seq!['-']
    } else {
        Seq::<char>::empty()
    };
    let dd = dec_digits(a / 1000);
    let fp = frac_part(a % 1000);
    assert forall|i: int| 0 <= i < t.len() implies (#[trigger] t[i]) != ' ' && t[i] != '\n' by {
        if i < sign.len() {
            assert(t[i] == '-');
        } else if i < sign.len() + dd.len() {
            assert(t[i] == dd[i - sign.len()]);
            lemma_digit_not_special(dd[i - sign.len()]);
        } else {
            let k = i - sign.len() - dd.len();
            assert(t[i] == fp[k]);
            if a % 1000 != 0 {
                if k == 0 {
                    assert(fp[0] == '.');
                } else {
                    assert(digit_val(fp[k]) >= 0);
                    lemma_digit_not_special(fp[k]);
                }
            }
        }
    }
}

/// A run of non-space characters bounded by a space or the line's end is
/// one token.
proof fn lemma_tok_end_run(line: Seq<char>, p: int, q: int)
    requires
        0 <= p <= q <= line.len(),
        forall|j: int| p <= j < q ==> (#[trigger] line[j]) != ' ',
        q == line.len() || line[q] == ' ',
    ensures
        tok_end(line, p) == q,
    decreases q - p,
{
    if p < q {
        lemma_tok_end_run(line, p + 1, q);
    }
}

/// A run of non-newline characters bounded by a newline or the text's end
/// is one line.
proof fn lemma_line_end_run(text: Seq<char>, p: int, q: int)
    requires
        0 <= p <= q <= text.len(),
        forall|j: int| p <= j < q ==> (#[trigger] text[j]) != '\n',
        q == text.len() || text[q] == '\n',
    ensures
        line_end(text, p) == q,
    decreases q - p,
{
    if p < q {
        lemma_line_end_run(text, p + 1, q);
    }
}

/// Parsing a formatted coordinate returns exactly the coordinate.
proof fn lemma_parse_milli_fmt(m: i64)
    ensures
        parse_milli_tok(fmt_milli(m as int)) == Some(m),
{
    let mi = m as int;
    let a = if mi < 0 {
        -mi
    } else {
        mi
    };
    let q = a / 1000;
    let f = a % 1000;
    let t = fmt_milli(mi);
    let sign: Seq<char> = if mi < 0 {
        seq!['-']
    } else {
        Seq::<char>::empty()
    };
    let dd = dec_digits(q);
    let fp = frac_part(f);
    lemma_dec_digits_chars(q);
    lemma_digits_roundtrip(q);
    assert(t.len() > 0);
    if mi < 0 {
        assert(t[0] == '-');
    } else {
        assert(t[0] == dd[0]);
        lemma_digit_not_special(dd[0]);
        assert(t[0] != '-');
    }
    assert(milli_s0(t) == sign.len());
    let u = milli_u(t);
    assert(u =~= dd + fp);
    assert forall|j: int| 0 <= j < dd.len() implies (#[trigger] u[j]) != '.' by {
        assert(u[j] == dd[j]);
        lemma_digit_not_special(dd[j]);
    }
    lemma_first_dot_ge(u, dd.len() as int);
    lemma_first_dot_props(u);
    if f == 0 {
        assert(fp.len() == 0);
        assert(first_dot(u) == u.len());
        let ip = u.take(first_dot(u));
        assert(ip =~= dd);
        assert(is_digits(ip));
        assert(digits_val(ip) == q);
        assert(q * 1000 + 0 == a);
    } else {
        assert(fp[0] == '.');
        assert(u[dd.len() as int] == '.');
        assert(first_dot(u) == dd.len());
        let ip = u.take(first_dot(u));
        assert(ip =~= dd);
        assert(is_digits(ip));
        assert(digits_val(ip) == q);
        let fpd = u.subrange(first_dot(u) + 1, u.len() as int);
        let d1 = f / 100;
        let d2 = (f / 10) % 10;
        let d3 = f % 10;
        assert(f == d1 * 100 + d2 * 10 + d3);
        if d3 != 0 {
            assert(fpd =~= seq![digit_char(d1), digit_char(d2), digit_char(d3)]);
            assert(is_digits(fpd)) by {
                assert(digit_val(fpd[0]) >= 0 && digit_val(fpd[1]) >= 0 && digit_val(fpd[2]) >= 0);
            }
            assert(frac_val(fpd) == d1 * 100 + d2 * 10 + d3);
        } else if d2 != 0 {
            assert(fpd =~= seq![digit_char(d1), digit_char(d2)]);
            assert(is_digits(fpd)) by {
                assert(digit_val(fpd[0]) >= 0 && digit_val(fpd[1]) >= 0);
            }
            assert(frac_val(fpd) == d1 * 100 + d2 * 10);
        } else {
            assert(fpd =~= seq![digit_char(d1)]);
            assert(is_digits(fpd)) by {
                assert(digit_val(fpd[0]) >= 0);
            }
            assert(frac_val(fpd) == d1 * 100);
        }
        assert(frac_val(fpd) == f);
        assert(digits_val(ip) * 1000 + frac_val(fpd) == a);
    }
}

/// Parsing a formatted 1-based index returns exactly the 0-based index.
proof fn lemma_parse_index_fmt(x: VertexIndex)
    ensures
        parse_index_tok(dec_digits(x + 1)) == Some(x),
{
    lemma_dec_digits_chars(x + 1);
    lemma_digits_roundtrip(x + 1);
    assert(is_digits(dec_digits(x + 1)));
}

/// A vertex line without its newline.
spec fn vline_body(v: Vertex) -> Seq<char> {
    seq!['v', ' '] + fmt_milli(v.x as int) + seq![' '] + fmt_milli(v.y as int) + seq![' ']
        + fmt_milli(v.z as int)
}

/// A triangle line without its newline.
spec fn fline_body(a: VertexIndex, b: VertexIndex, c: VertexIndex) -> Seq<char> {
    seq!['f', ' '] + dec_digits(a + 1) + seq![' '] + dec_digits(b + 1) + seq![' '] + dec_digits(
        c + 1,
    )
}

/// Parsing a formatted vertex line returns exactly the vertex.
#[verifier::rlimit(60)]
proof fn lemma_parse_vline(v: Vertex)
    ensures
        fmt_vertex_line(v) == vline_body(v) + seq!['\n'],
        forall|i: int| 0 <= i < vline_body(v).len() ==> (#[trigger] vline_body(v)[i]) != '\n',
        parse_line_spec(vline_body(v)) == Ok::<ObjLine, (int, ParseErrorKind)>(ObjLine::Vert(v)),
{
    let line = vline_body(v);
    let mx = fmt_milli(v.x as int);
    let my = fmt_milli(v.y as int);
    let mz = fmt_milli(v.z as int);
    let lx = mx.len() as int;
    let ly = my.len() as int;
    let lz = mz.len() as int;
    lemma_fmt_milli_chars(v.x as int);
    lemma_fmt_milli_chars(v.y as int);
    lemma_fmt_milli_chars(v.z as int);
    assert(fmt_vertex_line(v) =~= line + seq!['\n']);
    assert(line.len() == 4 + lx + ly + lz);
    assert(line[0] == 'v');
    assert(line[1] == ' ');
    assert forall|j: int| 0 <= j < lx implies line[2 + j] == mx[j] by {}
    assert(line[2 + lx] == ' ');
    assert forall|j: int| 0 <= j < ly implies line[3 + lx + j] == my[j] by {}
    assert(line[3 + lx + ly] == ' ');
    assert forall|j: int| 0 <= j < lz implies line[4 + lx + ly + j] == mz[j] by {}
    assert forall|i: int| 0 <= i < line.len() implies (#[trigger] line[i]) != '\n' by {
        if i >= 2 && i < 2 + lx {
            assert(line[i] == mx[i - 2]);
        } else if i >= 3 + lx && i < 3 + lx + ly {
            assert(line[i] == my[i - 3 - lx]);
        } else if i >= 4 + lx + ly {
            assert(line[i] == mz[i - 4 - lx - ly]);
        }
    }
    lemma_tok_end_run(line, 0, 1);
    assert(line.subrange(0, 1) =~= seq!['v']);
    lemma_tok_end_run(line, 2, 2 + lx);
    assert(tok_at(line, 2) =~= mx);
    lemma_parse_milli_fmt(v.x);
    assert(parse_milli_tok(tok_at(line, 2)) == Some(v.x));
    assert(tok_stop(line, 2) == 2 + lx);
    lemma_tok_end_run(line, 3 + lx, 3 + lx + ly);
    assert(tok_at(line, 3 + lx) =~= my);
    lemma_parse_milli_fmt(v.y);
    assert(parse_milli_tok(tok_at(line, 3 + lx)) == Some(v.y));
    assert(tok_stop(line, 3 + lx) == 3 + lx + ly);
    lemma_tok_end_run(line, 4 + lx + ly, line.len() as int);
    assert(tok_at(line, 4 + lx + ly) =~= mz);
    lemma_parse_milli_fmt(v.z);
    assert(parse_milli_tok(tok_at(line, 4 + lx + ly)) == Some(v.z));
    assert(Vertex { x: v.x, y: v.y, z: v.z } == v);
}

/// Parsing a formatted triangle line returns exactly the three indices.
#[verifier::rlimit(60)]
proof fn lemma_parse_fline(a: VertexIndex, b: VertexIndex, c: VertexIndex)
    ensures
        fmt_face_line(a, b, c) == fline_body(a, b, c) + seq!['\n'],
        forall|i: int|
            0 <= i < fline_body(a, b, c).len() ==> (#[trigger] fline_body(a, b, c)[i]) != '\n',
        parse_line_spec(fline_body(a, b, c)) == Ok::<ObjLine, (int, ParseErrorKind)>(
            ObjLine::Tri(a, b, c),
        ),
{
    let line = fline_body(a, b, c);
    let da = dec_digits(a + 1);
    let db = dec_digits(b + 1);
    let dc = dec_digits(c + 1);
    let la = da.len() as int;
    let lb = db.len() as int;
    let lc = dc.len() as int;
    lemma_dec_digits_chars(a + 1);
    lemma_dec_digits_chars(b + 1);
    lemma_dec_digits_chars(c + 1);
    assert(fmt_face_line(a, b, c) =~= line + seq!['\n']);
    assert(line.len() == 4 + la + lb + lc);
    assert(line[0] == 'f');
    assert(line[1] == ' ');
    assert forall|j: int| 0 <= j < la implies line[2 + j] == da[j] by {}
    assert(line[2 + la] == ' ');
    assert forall|j: int| 0 <= j < lb implies line[3 + la + j] == db[j] by {}
    assert(line[3 + la + lb] == ' ');
    assert forall|j: int| 0 <= j < lc implies line[4 + la + lb + j] == dc[j] by {}
    assert forall|i: int| 0 <= i < line.len() implies (#[trigger] line[i]) != '\n' && (line[i]
        == ' ' ==> (i == 1 || i == 2 + la || i == 3 + la + lb)) by {
        if i >= 2 && i < 2 + la {
            assert(line[i] == da[i - 2]);
            lemma_digit_not_special(da[i - 2]);
        } else if i >= 3 + la && i < 3 + la + lb {
            assert(line[i] == db[i - 3 - la]);
            lemma_digit_not_special(db[i - 3 - la]);
        } else if i >= 4 + la + lb {
            assert(line[i] == dc[i - 4 - la - lb]);
            lemma_digit_not_special(dc[i - 4 - la - lb]);
        }
    }
    lemma_tok_end_run(line, 0, 1);
    assert(line.subrange(0, 1) =~= seq!['f']);
    assert(line.subrange(0, 1) != seq!['v']) by {
        assert(line.subrange(0, 1)[0] == 'f');
    }
    lemma_tok_end_run(line, 2, 2 + la);
    assert(tok_at(line, 2) =~= da);
    lemma_parse_index_fmt(a);
    assert(parse_index_tok(tok_at(line, 2)) == Some(a));
    assert(tok_stop(line, 2) == 2 + la);
    lemma_tok_end_run(line, 3 + la, 3 + la + lb);
    assert(tok_at(line, 3 + la) =~= db);
    lemma_parse_index_fmt(b);
    assert(parse_index_tok(tok_at(line, 3 + la)) == Some(b));
    assert(tok_stop(line, 3 + la) == 3 + la + lb);
    lemma_tok_end_run(line, 4 + la + lb, line.len() as int);
    assert(tok_at(line, 4 + la + lb) =~= dc);
    lemma_parse_index_fmt(c);
    assert(parse_index_tok(tok_at(line, 4 + la + lb)) == Some(c));
}

/// Parsing text that is a formatted triangle-line block appends exactly
/// those indices.
#[verifier::spinoff_prover]
proof fn lemma_parse_faces(
    text: Seq<char>,
    pos: int,
    lineno: int,
    vs0: Seq<Vertex>,
    fs0: Seq<VertexIndex>,
    frem: Seq<VertexIndex>,
)
    requires
        0 <= pos <= text.len(),
        lineno >= 1,
        frem.len() % 3 == 0,
        text.subrange(pos, text.len() as int) == face_lines(frem),
    ensures
        spec_parse_from(text, pos, lineno, vs0, fs0) == Ok::<
            (Seq<Vertex>, Seq<VertexIndex>),
            (int, int, ParseErrorKind),
        >((vs0, fs0 + frem)),
    decreases frem.len(),
{
    let rest = text.subrange(pos, text.len() as int);
    if frem.len() < 3 {
        assert(frem.len() == 0);
        assert(rest.len() == 0);
        assert(pos == text.len());
        assert(fs0 + frem =~= fs0);
    } else {
        let a = frem[0];
        let b = frem[1];
        let c = frem[2];
        lemma_parse_fline(a, b, c);
        let body = fline_body(a, b, c);
        let bl = body.len() as int;
        assert(face_lines(frem) == fmt_face_line(a, b, c) + face_lines(frem.skip(3)));
        assert(fmt_face_line(a, b, c).len() == bl + 1);
        assert(rest.len() >= bl + 1);
        assert forall|j: int| 0 <= j < bl implies rest[j] == body[j] by {
            assert(fmt_face_line(a, b, c)[j] == (fline_body(a, b, c) + seq!['\n'])[j]);
        }
        assert(rest[bl] == (fline_body(a, b, c) + seq!['\n'])[bl]);
        assert(rest[bl] == '\n');
        assert forall|j: int| pos <= j < pos + bl implies (#[trigger] text[j]) != '\n' by {
            assert(text[j] == rest[j - pos]);
            assert(rest[j - pos] == body[j - pos]);
        }
        assert(text[pos + bl] == rest[bl]);
        lemma_line_end_run(text, pos, pos + bl);
        assert(text.subrange(pos, pos + bl) =~= body);
        assert(parse_line_spec(text.subrange(pos, pos + bl)) == Ok::<
            ObjLine,
            (int, ParseErrorKind),
        >(ObjLine::Tri(a, b, c)));
        let pos2 = pos + bl + 1;
        assert(text.subrange(pos2, text.len() as int) =~= face_lines(frem.skip(3))) by {
            assert forall|j: int|
                0 <= j < text.len() - pos2 implies text.subrange(pos2, text.len() as int)[j]
                == face_lines(frem.skip(3))[j] by {
                assert(text.subrange(pos2, text.len() as int)[j] == rest[j + bl + 1]);
                assert(rest[j + bl + 1] == face_lines(frem.skip(3))[j]);
            }
        }
        lemma_parse_faces(text, pos2, lineno + 1, vs0, fs0.push(a).push(b).push(c), frem.skip(3));
        assert(fs0.push(a).push(b).push(c) + frem.skip(3) =~= fs0 + frem);
    }
}

/// Parsing text that is a formatted vertex-line block followed by a
/// formatted triangle-line block appends exactly those vertices and
/// indices.
#[verifier::spinoff_prover]
proof fn lemma_parse_formatted(
    text: Seq<char>,
    pos: int,
    lineno: int,
    vs0: Seq<Vertex>,
    fs0: Seq<VertexIndex>,
    vrem: Seq<Vertex>,
    frem: Seq<VertexIndex>,
)
    requires
        0 <= pos <= text.len(),
        lineno >= 1,
        frem.len() % 3 == 0,
        text.subrange(pos, text.len() as int) == vertex_lines(vrem) + face_lines(frem),
    ensures
        spec_parse_from(text, pos, lineno, vs0, fs0) == Ok::<
            (Seq<Vertex>, Seq<VertexIndex>),
            (int, int, ParseErrorKind),
        >((vs0 + vrem, fs0 + frem)),
    decreases vrem.len(),
{
    let rest = text.subrange(pos, text.len() as int);
    if vrem.len() == 0 {
        assert(vertex_lines(vrem).len() == 0);
        assert(rest =~= face_lines(frem));
        lemma_parse_faces(text, pos, lineno, vs0, fs0, frem);
        assert(vs0 + vrem =~= vs0);
    } else {
        let v = vrem.first();
        lemma_parse_vline(v);
        let body = vline_body(v);
        let bl = body.len() as int;
        assert(vertex_lines(vrem) == fmt_vertex_line(v) + vertex_lines(vrem.drop_first()));
        assert(fmt_vertex_line(v).len() == bl + 1);
        assert(rest.len() >= bl + 1);
        assert forall|j: int| 0 <= j < bl implies rest[j] == body[j] by {
            assert(fmt_vertex_line(v)[j] == (vline_body(v) + seq!['\n'])[j]);
        }
        assert(rest[bl] == (vline_body(v) + seq!['\n'])[bl]);
        assert(rest[bl] == '\n');
        assert forall|j: int| pos <= j < pos + bl implies (#[trigger] text[j]) != '\n' by {
            assert(text[j] == rest[j - pos]);
            assert(rest[j - pos] == body[j - pos]);
        }
        assert(text[pos + bl] == rest[bl]);
        lemma_line_end_run(text, pos, pos + bl);
        assert(text.subrange(pos, pos + bl) =~= body);
        assert(parse_line_spec(text.subrange(pos, pos + bl)) == Ok::<
            ObjLine,
            (int, ParseErrorKind),
        >(ObjLine::Vert(v)));
        let pos2 = pos + bl + 1;
        assert(text.subrange(pos2, text.len() as int) =~= vertex_lines(vrem.drop_first())
            + face_lines(frem)) by {
            assert forall|j: int|
                0 <= j < text.len() - pos2 implies text.subrange(pos2, text.len() as int)[j] == (
            vertex_lines(vrem.drop_first()) + face_lines(frem))[j] by {
                assert(text.subrange(pos2, text.len() as int)[j] == rest[j + bl + 1]);
                assert(rest[j + bl + 1] == (vertex_lines(vrem.drop_first()) + face_lines(frem))[j]);
            }
        }
        lemma_parse_formatted(text, pos2, lineno + 1, vs0.push(v), fs0, vrem.drop_first(), frem);
        assert(vs0.push(v) + vrem.drop_first() =~= vs0 + vrem);
    }
}

/// Round-trip law: re-parsing a serialized mesh reproduces the identical
/// vertex sequence (same order, same values) and the identical
/// triangle-index sequence.
pub proof fn lemma_obj_round_trip(vs: Seq<Vertex>, fs: Seq<VertexIndex>)
    requires
        fs.len() % 3 == 0,
    ensures
        spec_parse(obj_text_spec(vs, fs)) == Ok::<
            (Seq<Vertex>, Seq<VertexIndex>),
            (int, int, ParseErrorKind),
        >((vs, fs)),
{
    let text = obj_text_spec(vs, fs);
    assert(text.subrange(0, text.len() as int) =~= vertex_lines(vs) + face_lines(fs));
    lemma_parse_formatted(
        text,
        0,
        1,
        Seq::<Vertex>::empty(),
        Seq::<VertexIndex>::empty(),
        vs,
        fs,
    );
    assert(Seq::<Vertex>::empty() + vs =~= vs);
    assert(Seq::<VertexIndex>::empty() + fs =~= fs);
}

} // verus!
