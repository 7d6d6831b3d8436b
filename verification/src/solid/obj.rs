//! The line grammar of Wavefront OBJ text: each line is split into
//! whitespace-separated tokens; a line that starts with `v` gives a vertex
//! (its coordinate tokens), one that starts with `f` a face (its tokens that
//! read as indices). Every other line is skipped.
use vstd::prelude::*;
use crate::text::{decimal, push_decimal};
use vstd::string::StringExecFns;

verus! {

/// A whitespace character, as Unicode's White_Space property has it: tab,
/// line feed, vertical tab, form feed, carriage return, space, next line,
/// no-break space, ogham space mark, the spaces from en quad to hair space,
/// line and paragraph separator, narrow no-break space, medium mathematical
/// space and ideographic space.
pub open spec fn is_ws(c: char) -> bool {
    let u = c as u32;
    ||| 9 <= u <= 13
    ||| u == 32
    ||| u == 0x85
    ||| u == 0xA0
    ||| u == 0x1680
    ||| 0x2000 <= u <= 0x200A
    ||| u == 0x2028
    ||| u == 0x2029
    ||| u == 0x202F
    ||| u == 0x205F
    ||| u == 0x3000
}

/// The lines of `text`, split at each line feed: one more line than there
/// are line feeds.
pub open spec fn split_lines(text: Seq<char>) -> Seq<Seq<char>>
    decreases text.len(),
{
    if text.len() == 0 {
        seq![Seq::empty()]
    } else {
        let ls = split_lines(text.drop_last());
        if text.last() == '\n' {
            ls.push(Seq::empty())
        } else {
            ls.update(ls.len() - 1, ls.last().push(text.last()))
        }
    }
}

/// The maximal runs of non-whitespace characters of `line`, in order.
pub open spec fn tokens(line: Seq<char>) -> Seq<Seq<char>>
    decreases line.len(),
{
    if line.len() == 0 {
        Seq::empty()
    } else {
        let ts = tokens(line.drop_last());
        let b = line.last();
        if is_ws(b) {
            ts
        } else if line.len() >= 2 && !is_ws(line[line.len() - 2]) {
            ts.update(ts.len() - 1, ts.last().push(b))
        } else {
            ts.push(seq![b])
        }
    }
}

/// A decimal digit, `0` to `9`.
pub open spec fn is_digit(c: char) -> bool {
    48 <= (c as u32) <= 57
}

/// The value of the decimal digits `ds`.
pub open spec fn digits_value(ds: Seq<char>) -> nat
    decreases ds.len(),
{
    if ds.len() == 0 {
        0
    } else {
        10 * digits_value(ds.drop_last()) + ((ds.last() as u32) - 48) as nat
    }
}

/// How `usize` reads the token `t`: an optional `+`, then one or more
/// decimal digits whose value fits a `usize`; `None` for anything else.
pub open spec fn read_index(t: Seq<char>) -> Option<usize> {
    let ds = unsigned_part(t);
    if ds.len() > 0 && all_digits(ds) && digits_value(ds) <= usize::MAX {
        Some(digits_value(ds) as usize)
    } else {
        None
    }
}

/// The token `t` without its leading `+`, where it has one.
pub open spec fn unsigned_part(t: Seq<char>) -> Seq<char> {
    if t.len() > 0 && t[0] == '+' {
        t.drop_first()
    } else {
        t
    }
}

/// Every character of `ds` is a decimal digit.
pub open spec fn all_digits(ds: Seq<char>) -> bool {
    forall|k: int| 0 <= k < ds.len() ==> is_digit(#[trigger] ds[k])
}

/// The tokens of `ts` that read as indices, read, in order.
pub open spec fn read_indices(ts: Seq<Seq<char>>) -> Seq<usize>
    decreases ts.len(),
{
    if ts.len() == 0 {
        Seq::empty()
    } else {
        read_indices(ts.drop_last()) + match read_index(ts.last()) {
            Some(i) => seq![i],
            None => Seq::empty(),
        }
    }
}

/// What a line of OBJ text gives.
#[derive(Debug)]
pub enum ObjLine {
    /// A vertex, with the tokens of its coordinates.
    Vertex(Vec<Vec<char>>),
    /// A face, with its vertex indices.
    Face(Vec<usize>),
}

/// What a line gives, as plain values.
pub enum ObjLineView {
    Vertex(Seq<Seq<char>>),
    Face(Seq<usize>),
}

impl ObjLine {
    pub open spec fn view(&self) -> ObjLineView {
        match self {
            ObjLine::Vertex(ts) => ObjLineView::Vertex(ts@.map_values(|t: Vec<char>| t@)),
            ObjLine::Face(ids) => ObjLineView::Face(ids@),
        }
    }
}

/// What the line with tokens `ts` gives: a vertex for `v`, a face for `f`,
/// nothing otherwise (a `#` comment among them).
pub open spec fn line_entry(ts: Seq<Seq<char>>) -> Seq<ObjLineView> {
    if ts.len() > 0 && ts[0] == seq!['v'] {
        seq![ObjLineView::Vertex(ts.drop_first())]
    } else if ts.len() > 0 && ts[0] == seq!['f'] {
        seq![ObjLineView::Face(read_indices(ts.drop_first()))]
    } else {
        Seq::empty()
    }
}

/// What the lines `ls` give, in order.
pub open spec fn entries(ls: Seq<Seq<char>>) -> Seq<ObjLineView>
    decreases ls.len(),
{
    if ls.len() == 0 {
        Seq::empty()
    } else {
        entries(ls.drop_last()) + line_entry(tokens(ls.last()))
    }
}

/// `digits_value` does not shrink as digits are added.
proof fn lemma_digits_value_grows(ds: Seq<char>, k: int)
    requires
        0 <= k <= ds.len(),
        forall|j: int| 0 <= j < ds.len() ==> is_digit(#[trigger] ds[j]),
    ensures
        digits_value(ds.take(k)) <= digits_value(ds),
    decreases ds.len() - k,
{
    if k < ds.len() {
        lemma_digits_value_grows(ds, k + 1);
        assert(ds.take(k + 1).drop_last() == ds.take(k));
        assert(ds.take(k + 1).last() == ds[k]);
        assert(is_digit(ds[k]));
    } else {
        assert(ds.take(k) == ds);
    }
}

/// How `usize` reads the token `t` (see `read_index`).
pub fn parse_index(t: &Vec<char>) -> (res: Option<usize>)
    ensures
        res == read_index(t@),
{
    let mut start: usize = 0;
    if t.len() > 0 && t[0] == '+' {
        start = 1;
    }
    let ghost ds = unsigned_part(t@);
    if start >= t.len() {
        return None;
    }
    let mut value: usize = 0;
    let mut i: usize = start;
    while i < t.len()
        invariant
            start <= i <= t.len(),
            start < t.len(),
            ds == t@.subrange(start as int, t@.len() as int),
            ds == unsigned_part(t@),
            forall|k: int| start <= k < i ==> is_digit(#[trigger] t@[k]),
            value == digits_value(ds.take(i - start)),
        decreases t.len() - i,
    {
        let b = t[i] as u32;
        if b < 48 || b > 57 {
            proof {
                assert(ds[i - start] == t@[i as int]);
                assert(!is_digit(ds[i - start]));
                assert(!all_digits(ds));
                assert(read_index(t@) is None);
            }
            return None;
        }
        let d = (b - 48) as usize;
        proof {
            assert(ds.take(i - start + 1).drop_last() == ds.take(i - start));
        }
        if value > (usize::MAX - d) / 10 {
            proof {
                assert(10 * value + d > usize::MAX) by (nonlinear_arith)
                    requires
                        value > (usize::MAX - d) / 10,
                        d <= 9,
                ;
                assert(digits_value(ds.take(i - start + 1)) == 10 * value + d);
                if all_digits(ds) {
                    lemma_digits_value_grows(ds, i - start + 1);
                }
                assert(read_index(t@) is None);
            }
            return None;
        }
        value = 10 * value + d;
        i = i + 1;
    }
    proof {
        assert(ds.take(i - start) == ds);
    }
    Some(value)
}

/// The tokens of `ts` that read as indices, read, in order.
pub fn parse_indices(ts: &Vec<Vec<char>>, from: usize) -> (ids: Vec<usize>)
    requires
        from <= ts.len(),
    ensures
        ids@ == read_indices(ts@.map_values(|t: Vec<char>| t@).skip(from as int)),
{
    let ghost tv = ts@.map_values(|t: Vec<char>| t@);
    let mut ids: Vec<usize> = Vec::new();
    let mut k: usize = from;
    while k < ts.len()
        invariant
            from <= k <= ts.len(),
            tv == ts@.map_values(|t: Vec<char>| t@),
            ids@ == read_indices(tv.subrange(from as int, k as int)),
        decreases ts.len() - k,
    {
        let r = parse_index(&ts[k]);
        proof {
            assert(tv.subrange(from as int, k + 1).drop_last() == tv.subrange(from as int, k as int));
        }
        match r {
            Some(i) => ids.push(i),
            None => {},
        }
        k = k + 1;
    }
    proof {
        assert(tv.subrange(from as int, k as int) == tv.skip(from as int));
    }
    ids
}

/// What the line with tokens `ts` gives (see `line_entry`), pushed onto
/// `out`.
fn push_entry(out: &mut Vec<ObjLine>, ts: Vec<Vec<char>>)
    ensures
        final(out)@.map_values(|e: ObjLine| e.view()) == old(out)@.map_values(|e: ObjLine| e.view()) + line_entry(
            ts@.map_values(|t: Vec<char>| t@),
        ),
{
    let ghost tv = ts@.map_values(|t: Vec<char>| t@);
    let ghost o0 = out@;
    if ts.len() > 0 && ts[0].len() == 1 && ts[0][0] == 'v' {
        proof {
            assert(tv[0] =~= seq!['v']);
        }
        let mut rest = ts;
        let _head = rest.remove(0);
        proof {
            assert(rest@.map_values(|t: Vec<char>| t@) =~= tv.drop_first());
        }
        out.push(ObjLine::Vertex(rest));
        proof {
            assert(out@.map_values(|e: ObjLine| e.view()) =~= o0.map_values(|e: ObjLine| e.view()) + line_entry(tv));
        }
    } else if ts.len() > 0 && ts[0].len() == 1 && ts[0][0] == 'f' {
        proof {
            assert(tv[0] =~= seq!['f']);
            assert(tv.skip(1) == tv.drop_first());
        }
        let ids = parse_indices(&ts, 1);
        out.push(ObjLine::Face(ids));
        proof {
            assert(out@.map_values(|e: ObjLine| e.view()) =~= o0.map_values(|e: ObjLine| e.view()) + line_entry(tv));
        }
    } else {
        proof {
            if tv.len() > 0 {
                assert(tv[0] != seq!['v']) by {
                    if ts@[0]@.len() == 1 {
                        assert(tv[0][0] == ts@[0]@[0]);
                    } else {
                        assert(tv[0].len() != seq!['v'].len());
                    }
                }
                assert(tv[0] != seq!['f']) by {
                    if ts@[0]@.len() == 1 {
                        assert(tv[0][0] == ts@[0]@[0]);
                    } else {
                        assert(tv[0].len() != seq!['f'].len());
                    }
                }
            }
            assert(out@.map_values(|e: ObjLine| e.view()) =~= o0.map_values(|e: ObjLine| e.view()) + line_entry(tv));
        }
    }
}

/// The vertices and faces that the lines of the OBJ text `text` give, in
/// the order of the lines (see `entries`).
pub fn read_obj_lines(text: &Vec<char>) -> (res: Vec<ObjLine>)
    ensures
        res@.map_values(|e: ObjLine| e.view()) == entries(split_lines(text@)),
{
    let mut res: Vec<ObjLine> = Vec::new();
    let mut line_tokens: Vec<Vec<char>> = Vec::new();
    let mut i: usize = 0;
    while i < text.len()
        invariant
            i <= text.len(),
            split_lines(text@.take(i as int)).len() >= 1,
            res@.map_values(|e: ObjLine| e.view()) == entries(split_lines(text@.take(i as int)).drop_last()),
            line_tokens@.map_values(|t: Vec<char>| t@) == tokens(split_lines(text@.take(i as int)).last()),
            i > 0 && !is_ws(text@[i - 1]) ==> split_lines(text@.take(i as int)).last().len() >= 1
                && split_lines(text@.take(i as int)).last().last() == text@[i - 1],
            (i == 0 || is_ws(text@[i - 1])) ==> (split_lines(text@.take(i as int)).last().len() == 0
                || is_ws(split_lines(text@.take(i as int)).last().last())),
        decreases text.len() - i,
    {
        let b = text[i];
        let ghost ls = split_lines(text@.take(i as int));
        let ghost tv0 = line_tokens@.map_values(|t: Vec<char>| t@);
        proof {
            assert(text@.take(i + 1).drop_last() == text@.take(i as int));
            assert(text@.take(i + 1).last() == b);
        }
        if b == '\n' {
            let done = line_tokens;
            line_tokens = Vec::new();
            push_entry(&mut res, done);
            proof {
                let ls1 = split_lines(text@.take(i + 1));
                assert(ls1 == ls.push(Seq::empty()));
                assert(ls1.drop_last() == ls);
                assert(ls == ls.drop_last().push(ls.last()));
                assert(line_tokens@.map_values(|t: Vec<char>| t@) =~= tokens(ls1.last()));
            }
        } else if is_ws_char(b) {
            proof {
                let ls1 = split_lines(text@.take(i + 1));
                assert(ls1 == ls.update(ls.len() - 1, ls.last().push(b)));
                assert(ls1.drop_last() =~= ls.drop_last());
                assert(ls.last().push(b).drop_last() == ls.last());
            }
        } else {
            let prev_in_token = i > 0 && !is_ws_char(text[i - 1]);
            if prev_in_token {
                proof {
                    assert(ls.last().len() >= 1);
                    assert(tokens(ls.last()).len() >= 1) by {
                        lemma_tokens_nonempty(ls.last());
                    }
                }
                let mut last = line_tokens.pop().unwrap();
                last.push(b);
                line_tokens.push(last);
                proof {
                    let l1 = ls.last().push(b);
                    assert(l1.drop_last() == ls.last());
                    assert(l1[l1.len() - 2] == text@[i - 1]);
                    assert(line_tokens@.map_values(|t: Vec<char>| t@) =~= tv0.update(tv0.len() - 1, tv0.last().push(b)));
                }
            } else {
                let mut fresh: Vec<char> = Vec::new();
                fresh.push(b);
                line_tokens.push(fresh);
                proof {
                    let l1 = ls.last().push(b);
                    assert(l1.drop_last() == ls.last());
                    if l1.len() >= 2 {
                        assert(is_ws(l1[l1.len() - 2]));
                    }
                    assert(line_tokens@.map_values(|t: Vec<char>| t@) =~= tv0.push(seq![b]));
                }
            }
            proof {
                let ls1 = split_lines(text@.take(i + 1));
                assert(ls1 == ls.update(ls.len() - 1, ls.last().push(b)));
                assert(ls1.drop_last() =~= ls.drop_last());
            }
        }
        i = i + 1;
    }
    let ghost ls = split_lines(text@.take(i as int));
    push_entry(&mut res, line_tokens);
    proof {
        assert(text@.take(i as int) == text@);
        assert(ls == ls.drop_last().push(ls.last()));
    }
    res
}

/// A line with a non-whitespace last character has a token.
proof fn lemma_tokens_nonempty(line: Seq<char>)
    requires
        line.len() >= 1,
        !is_ws(line.last()),
    ensures
        tokens(line).len() >= 1,
    decreases line.len(),
{
    let ts = tokens(line.drop_last());
    if line.len() >= 2 && !is_ws(line[line.len() - 2]) {
        assert(line.drop_last().last() == line[line.len() - 2]);
        lemma_tokens_nonempty(line.drop_last());
    }
}

/// Whether `c` is a whitespace character (see `is_ws`).
fn is_ws_char(c: char) -> (res: bool)
    ensures
        res == is_ws(c),
{
    let u = c as u32;
    (9 <= u && u <= 13) || u == 32 || u == 0x85 || u == 0xA0 || u == 0x1680 || (0x2000 <= u && u <= 0x200A)
        || u == 0x2028 || u == 0x2029 || u == 0x202F || u == 0x205F || u == 0x3000
}

/// A corner of a face line: the 1-based index of vertex `i`, followed by
/// `/` and the same index for its uv where `with_uv`.
pub open spec fn corner_text(i: usize, with_uv: bool) -> Seq<char> {
    if with_uv {
        decimal((i + 1) as nat) + "/"@ + decimal((i + 1) as nat)
    } else {
        decimal((i + 1) as nat)
    }
}

/// The face lines of the first `n` triangles of `tri`: `f`, then the three
/// corners, separated by spaces, one line per triangle.
pub open spec fn face_lines(tri: Seq<usize>, with_uv: bool, n: nat) -> Seq<char>
    decreases n,
{
    if n == 0 {
        Seq::empty()
    } else {
        let k = 3 * (n - 1);
        face_lines(tri, with_uv, (n - 1) as nat) + "f "@ + corner_text(tri[k], with_uv) + " "@ + corner_text(
            tri[k + 1],
            with_uv,
        ) + " "@ + corner_text(tri[k + 2], with_uv) + "\n"@
    }
}

/// Appends the corner of vertex `i` (see `corner_text`) to `text`.
fn push_corner(text: &mut String, i: usize, with_uv: bool)
    requires
        i < usize::MAX,
    ensures
        final(text)@ == old(text)@ + corner_text(i, with_uv),
{
    push_decimal(text, i + 1);
    if with_uv {
        text.append("/");
        push_decimal(text, i + 1);
    }
}

/// The face lines of the triangle index list `tri` (see `face_lines`),
/// with uv indices where `with_uv`.
pub fn obj_face_lines(tri: &Vec<usize>, with_uv: bool) -> (text: String)
    requires
        tri.len() % 3 == 0,
        forall|k: int| 0 <= k < tri.len() ==> #[trigger] tri@[k] < usize::MAX,
    ensures
        text@ == face_lines(tri@, with_uv, (tri.len() / 3) as nat),
{
    let mut text = String::new();
    let n = tri.len() / 3;
    let mut t: usize = 0;
    while t < n
        invariant
            t <= n,
            n == tri.len() / 3,
            tri.len() % 3 == 0,
            forall|k: int| 0 <= k < tri.len() ==> #[trigger] tri@[k] < usize::MAX,
            text@ == face_lines(tri@, with_uv, t as nat),
        decreases n - t,
    {
        let k = 3 * t;
        text.append("f ");
        push_corner(&mut text, tri[k], with_uv);
        text.append(" ");
        push_corner(&mut text, tri[k + 1], with_uv);
        text.append(" ");
        push_corner(&mut text, tri[k + 2], with_uv);
        text.append("\n");
        t = t + 1;
    }
    text
}

/// The head of an OBJ file: the comment `header`, then, where both are
/// given, the material library and the material it uses.
pub open spec fn obj_head(header: Seq<char>, mat_name: Option<Seq<char>>, mtl_path: Option<Seq<char>>) -> Seq<char> {
    "# "@ + header + "\n"@ + if mtl_path is Some && mat_name is Some {
        "mtllib "@ + mtl_path->0 + "\n"@ + "usemtl "@ + mat_name->0 + "\n"@
    } else {
        Seq::empty()
    }
}

/// The head of an OBJ file (see `obj_head`).
pub fn obj_head_text(header: &str, mat_name: Option<&str>, mtl_path: Option<&str>) -> (text: String)
    ensures
        text@ == obj_head(
            header@,
            match mat_name {
                Some(m) => Some(m@),
                None => None,
            },
            match mtl_path {
                Some(p) => Some(p@),
                None => None,
            },
        ),
{
    let mut text = String::new();
    text.append("# ");
    text.append(header);
    text.append("\n");
    if let (Some(m), Some(p)) = (mat_name, mtl_path) {
        text.append("mtllib ");
        text.append(p);
        text.append("\n");
        text.append("usemtl ");
        text.append(m);
        text.append("\n");
    }
    text
}

/// An MTL file of one material `mat_name`, under the comment `header`: its
/// fixed light properties, and the texture at `texture_path` for its
/// ambient, diffuse and specular maps where there is one.
pub open spec fn mtl_text(header: Seq<char>, mat_name: Seq<char>, texture_path: Option<Seq<char>>) -> Seq<char> {
    "# "@ + header + "\n"@ + "newmtl "@ + mat_name + "\n"@ + "Ns 250.000000\n"@ + "Ka 1.000000 1.000000 1.000000\n"@
        + "Kd 0.000000 0.000000 0.000000\n"@ + "Ks 0.000000 0.000000 0.000000\n"@
        + "Ke 0.000000 0.000000 0.000000\n"@ + "Ni 1.450000\n"@ + "d 1.000000\n"@ + "illum 2\n"@
        + match texture_path {
        Some(t) => "map_Ka "@ + t + "\n"@ + "map_Kd "@ + t + "\n"@ + "map_Ks "@ + t + "\n"@,
        None => Seq::empty(),
    }
}

/// An MTL file of one material (see `mtl_text`).
pub fn gen_mtl_text(header: &str, mat_name: &str, texture_path: Option<&str>) -> (text: String)
    ensures
        text@ == mtl_text(
            header@,
            mat_name@,
            match texture_path {
                Some(t) => Some(t@),
                None => None,
            },
        ),
{
    let mut text = String::new();
    text.append("# ");
    text.append(header);
    text.append("\n");
    text.append("newmtl ");
    text.append(mat_name);
    text.append("\n");
    text.append("Ns 250.000000\n");
    text.append("Ka 1.000000 1.000000 1.000000\n");
    text.append("Kd 0.000000 0.000000 0.000000\n");
    text.append("Ks 0.000000 0.000000 0.000000\n");
    text.append("Ke 0.000000 0.000000 0.000000\n");
    text.append("Ni 1.450000\n");
    text.append("d 1.000000\n");
    text.append("illum 2\n");
    if let Some(t) = texture_path {
        text.append("map_Ka ");
        text.append(t);
        text.append("\n");
        text.append("map_Kd ");
        text.append(t);
        text.append("\n");
        text.append("map_Ks ");
        text.append(t);
        text.append("\n");
    }
    text
}

} // verus!
