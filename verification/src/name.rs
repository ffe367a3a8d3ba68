//! Canonical DNS names: a sequence of lower-case labels, most specific first.
//!
//! Names compare case-insensitively; the representation is normalised to
//! lower case when a name is built, so label equality is plain byte equality.
//! The textual form is the master-file form: labels joined by `.` with a
//! trailing dot, the root name written `.` alone.

use vstd::prelude::*;

verus! {

/// Byte values used by the textual form.
pub const DOT: u8 = 46;

pub const LC_A: u8 = 97;

pub const LC_Z: u8 = 122;

pub const UC_A: u8 = 65;

pub const UC_Z: u8 = 90;

pub const DIG_0: u8 = 48;

pub const DIG_9: u8 = 57;

pub const HYPHEN: u8 = 45;

pub const UNDERSCORE: u8 = 95;

pub const STAR: u8 = 42;

/// Bytes allowed in a (normalised) label: `a`-`z`, `0`-`9`, `-`, `_`, `*`.
pub open spec fn is_name_byte(b: u8) -> bool {
    (LC_A <= b && b <= LC_Z) || (DIG_0 <= b && b <= DIG_9) || b == HYPHEN || b == UNDERSCORE || b == STAR
}

/// Lower-case a single byte (`A`-`Z` only; all other bytes unchanged).
pub open spec fn lower_byte(b: u8) -> u8 {
    if UC_A <= b && b <= UC_Z {
        (b + 32) as u8
    } else {
        b
    }
}

pub open spec fn lower_bytes(s: Seq<u8>) -> Seq<u8> {
    s.map_values(|b: u8| lower_byte(b))
}

/// A valid stored label: 1 to 63 normalised name bytes.
pub open spec fn valid_label(l: Seq<u8>) -> bool {
    &&& 1 <= l.len() <= 63
    &&& forall|i: int| 0 <= i < l.len() ==> is_name_byte(#[trigger] l[i])
}

/// Length of the name on the wire: one length byte per label plus the label
/// bytes, plus the terminating root byte.
pub open spec fn labels_wire_len(ls: Seq<Seq<u8>>) -> int
    decreases ls.len(),
{
    if ls.len() == 0 {
        1
    } else {
        1 + ls[0].len() + labels_wire_len(ls.skip(1))
    }
}

/// All labels valid and the whole name fits in 255 wire bytes.
pub open spec fn valid_labels(ls: Seq<Seq<u8>>) -> bool {
    &&& forall|i: int| 0 <= i < ls.len() ==> valid_label(#[trigger] ls[i])
    &&& labels_wire_len(ls) <= 255
}

/// Append a dot unless the text already ends with one.
pub open spec fn with_dot(s: Seq<u8>) -> Seq<u8> {
    if s.len() > 0 && s[s.len() - 1] == DOT {
        s
    } else {
        s.push(DOT)
    }
}

/// Index of the first `.` in `s`, if any.
pub open spec fn first_dot(s: Seq<u8>) -> Option<int>
    decreases s.len(),
{
    if s.len() == 0 {
        None
    } else if s[0] == DOT {
        Some(0int)
    } else {
        match first_dot(s.skip(1)) {
            None => None,
            Some(k) => Some(k + 1),
        }
    }
}

/// Split dot-terminated text into labels: every label must be followed by a
/// dot and be a valid stored label. `parse_dotted` of the empty text is the
/// empty label sequence.
pub open spec fn parse_dotted(s: Seq<u8>) -> Option<Seq<Seq<u8>>>
    decreases s.len(),
{
    if s.len() == 0 {
        Some(Seq::empty())
    } else {
        match first_dot(s) {
            None => None,
            Some(k) => if 0 <= k < s.len() && valid_label(s.subrange(0, k)) {
                match parse_dotted(s.skip(k + 1)) {
                    None => None,
                    Some(rest) => Some(seq![s.subrange(0, k)] + rest),
                }
            } else {
                None
            },
        }
    }
}

/// The labels a piece of name text denotes: `.` is the root; any other text
/// is lower-cased, given a trailing dot if it lacks one, and split at dots;
/// the result must fit in 255 wire bytes.
pub open spec fn name_text_labels(s: Seq<u8>) -> Option<Seq<Seq<u8>>> {
    if s == seq![DOT] {
        Some(Seq::empty())
    } else {
        match parse_dotted(with_dot(lower_bytes(s))) {
            None => None,
            Some(ls) => if labels_wire_len(ls) <= 255 {
                Some(ls)
            } else {
                None
            },
        }
    }
}

/// Labels joined as text: each label followed by a dot.
pub open spec fn render_labels(ls: Seq<Seq<u8>>) -> Seq<u8>
    decreases ls.len(),
{
    if ls.len() == 0 {
        Seq::empty()
    } else {
        ls[0] + seq![DOT] + render_labels(ls.skip(1))
    }
}

/// The canonical text of a name: `.` for the root, otherwise the labels
/// joined by dots with a trailing dot.
pub open spec fn name_text(ls: Seq<Seq<u8>>) -> Seq<u8> {
    if ls.len() == 0 {
        seq![DOT]
    } else {
        render_labels(ls)
    }
}

/// `short` is a (not necessarily strict) suffix of `long`: the name with
/// labels `long` lies at or below the name with labels `short`.
pub open spec fn suffix_of(short: Seq<Seq<u8>>, long: Seq<Seq<u8>>) -> bool {
    &&& short.len() <= long.len()
    &&& long.skip(long.len() - short.len()) == short
}

/// The label sequence a vector of label byte vectors denotes.
pub open spec fn labels_view(v: Vec<Vec<u8>>) -> Seq<Seq<u8>> {
    Seq::new(v@.len(), |i: int| v@[i]@)
}

/// A canonical DNS name. The view is the label sequence, most specific label
/// first; the root name has no labels.
#[derive(PartialEq, Eq, Hash, Debug)]
pub struct Name {
    pub labels: Vec<Vec<u8>>,
}

impl View for Name {
    type V = Seq<Seq<u8>>;

    open spec fn view(&self) -> Seq<Seq<u8>> {
        labels_view(self.labels)
    }
}

pub proof fn lemma_first_dot_char(s: Seq<u8>)
    ensures
        match first_dot(s) {
            Some(k) => 0 <= k < s.len() && s[k] == DOT && forall|j: int|
                0 <= j < k ==> s[j] != DOT,
            None => forall|j: int| 0 <= j < s.len() ==> s[j] != DOT,
        },
    decreases s.len(),
{
    if s.len() == 0 {
    } else if s[0] == DOT {
    } else {
        lemma_first_dot_char(s.skip(1));
        match first_dot(s.skip(1)) {
            None => {
                assert forall|j: int| 0 <= j < s.len() implies s[j] != DOT by {
                    if j > 0 {
                        assert(s.skip(1)[j - 1] != DOT);
                    }
                }
            },
            Some(k) => {
                assert(s[k + 1] == s.skip(1)[k]);
                assert forall|j: int| 0 <= j < k + 1 implies s[j] != DOT by {
                    if j > 0 {
                        assert(s.skip(1)[j - 1] != DOT);
                    }
                }
            },
        }
    }
}

pub proof fn lemma_wire_len_parts(a: Seq<Seq<u8>>, b: Seq<Seq<u8>>)
    ensures
        labels_wire_len(a + b) == labels_wire_len(a) + labels_wire_len(b) - 1,
        labels_wire_len(b) >= 1,
    decreases a.len(),
{
    if a.len() == 0 {
        assert(a + b =~= b);
        lemma_wire_len_nonneg(b);
    } else {
        lemma_wire_len_parts(a.skip(1), b);
        assert((a + b).skip(1) =~= a.skip(1) + b);
    }
}

pub proof fn lemma_wire_len_nonneg(ls: Seq<Seq<u8>>)
    ensures
        labels_wire_len(ls) >= 1,
    decreases ls.len(),
{
    if ls.len() > 0 {
        lemma_wire_len_nonneg(ls.skip(1));
    }
}

/// The canonical text of a valid name is ASCII.
pub proof fn lemma_name_text_ascii(ls: Seq<Seq<u8>>)
    requires
        valid_labels(ls),
    ensures
        forall|i: int| 0 <= i < name_text(ls).len() ==> (#[trigger] name_text(ls)[i]) < 128,
{
    if ls.len() == 0 {
    } else {
        lemma_render_ascii(ls);
    }
}

proof fn lemma_render_ascii(ls: Seq<Seq<u8>>)
    requires
        forall|i: int| 0 <= i < ls.len() ==> valid_label(#[trigger] ls[i]),
    ensures
        forall|i: int| 0 <= i < render_labels(ls).len() ==> (#[trigger] render_labels(ls)[i])
            < 128,
    decreases ls.len(),
{
    if ls.len() > 0 {
        assert forall|i: int| 0 <= i < ls.skip(1).len() implies valid_label(
            #[trigger] ls.skip(1)[i],
        ) by {
            assert(ls.skip(1)[i] == ls[i + 1]);
        }
        lemma_render_ascii(ls.skip(1));
        let r = render_labels(ls);
        let head = ls[0] + seq![DOT];
        assert forall|i: int| 0 <= i < r.len() implies (#[trigger] r[i]) < 128 by {
            if i < head.len() {
                assert(r[i] == head[i]);
                if i < ls[0].len() {
                    assert(is_name_byte(ls[0][i]));
                }
            } else {
                assert(r[i] == render_labels(ls.skip(1))[i - head.len()]);
            }
        }
    }
}

/// A sequence of valid labels fits at most 127 labels in 255 wire bytes.
pub proof fn lemma_valid_labels_count(ls: Seq<Seq<u8>>)
    requires
        valid_labels(ls),
    ensures
        ls.len() <= 127,
{
    lemma_wire_len_min(ls);
}

proof fn lemma_wire_len_min(ls: Seq<Seq<u8>>)
    requires
        forall|i: int| 0 <= i < ls.len() ==> valid_label(#[trigger] ls[i]),
    ensures
        labels_wire_len(ls) >= 1 + 2 * ls.len(),
    decreases ls.len(),
{
    if ls.len() > 0 {
        assert(valid_label(ls[0]));
        assert forall|i: int| 0 <= i < ls.skip(1).len() implies valid_label(
            #[trigger] ls.skip(1)[i],
        ) by {
            assert(ls.skip(1)[i] == ls[i + 1]);
        }
        lemma_wire_len_min(ls.skip(1));
    }
}

pub proof fn lemma_render_concat(a: Seq<Seq<u8>>, b: Seq<Seq<u8>>)
    ensures
        render_labels(a + b) == render_labels(a) + render_labels(b),
    decreases a.len(),
{
    if a.len() == 0 {
        assert(a + b =~= b);
        assert(render_labels(a) + render_labels(b) =~= render_labels(b));
    } else {
        lemma_render_concat(a.skip(1), b);
        assert((a + b).skip(1) =~= a.skip(1) + b);
        assert((a + b)[0] == a[0]);
        assert(a[0] + seq![DOT] + (render_labels(a.skip(1)) + render_labels(b)) =~= (a[0]
            + seq![DOT] + render_labels(a.skip(1))) + render_labels(b));
    }
}


/// Rendering never produces an upper-case byte, so lower-casing the text
/// changes nothing.
proof fn lemma_render_lower(ls: Seq<Seq<u8>>)
    requires
        forall|i: int| 0 <= i < ls.len() ==> valid_label(#[trigger] ls[i]),
    ensures
        lower_bytes(render_labels(ls)) == render_labels(ls),
    decreases ls.len(),
{
    if ls.len() == 0 {
        assert(lower_bytes(render_labels(ls)) =~= render_labels(ls));
    } else {
        assert forall|i: int| 0 <= i < ls.skip(1).len() implies valid_label(
            #[trigger] ls.skip(1)[i],
        ) by {
            assert(ls.skip(1)[i] == ls[i + 1]);
        }
        lemma_render_lower(ls.skip(1));
        let r = render_labels(ls);
        let head = ls[0] + seq![DOT];
        assert(valid_label(ls[0]));
        assert forall|i: int| 0 <= i < r.len() implies lower_bytes(r)[i] == r[i] by {
            if i < head.len() {
                assert(r[i] == head[i]);
                if i < ls[0].len() {
                    assert(is_name_byte(ls[0][i]));
                }
            } else {
                assert(r[i] == render_labels(ls.skip(1))[i - head.len()]);
                assert(lower_bytes(render_labels(ls.skip(1)))[i - head.len()] == render_labels(
                    ls.skip(1),
                )[i - head.len()]);
            }
        }
        assert(lower_bytes(r) =~= r);
    }
}

/// The rendering of one or more labels ends with a dot.
proof fn lemma_render_ends_with_dot(ls: Seq<Seq<u8>>)
    requires
        ls.len() > 0,
        forall|i: int| 0 <= i < ls.len() ==> valid_label(#[trigger] ls[i]),
    ensures
        render_labels(ls).len() > 0,
        render_labels(ls)[render_labels(ls).len() - 1] == DOT,
    decreases ls.len(),
{
    let r = render_labels(ls);
    if ls.len() == 1 {
        assert(render_labels(ls.skip(1)) =~= Seq::<u8>::empty()) by {
            assert(ls.skip(1) =~= Seq::<Seq<u8>>::empty());
        }
        assert(r =~= ls[0] + seq![DOT]);
    } else {
        assert forall|i: int| 0 <= i < ls.skip(1).len() implies valid_label(
            #[trigger] ls.skip(1)[i],
        ) by {
            assert(ls.skip(1)[i] == ls[i + 1]);
        }
        lemma_render_ends_with_dot(ls.skip(1));
        assert(r[r.len() - 1] == render_labels(ls.skip(1))[render_labels(ls.skip(1)).len() - 1]);
    }
}

/// Splitting the rendering at its dots yields the labels back.
proof fn lemma_parse_render(ls: Seq<Seq<u8>>)
    requires
        forall|i: int| 0 <= i < ls.len() ==> valid_label(#[trigger] ls[i]),
    ensures
        parse_dotted(render_labels(ls)) == Some(ls),
    decreases ls.len(),
{
    let t = render_labels(ls);
    if ls.len() == 0 {
        assert(t =~= Seq::<u8>::empty());
        assert(parse_dotted(t) == Some(Seq::<Seq<u8>>::empty()));
        assert(Seq::<Seq<u8>>::empty() =~= ls);
    } else {
        assert(valid_label(ls[0]));
        let l0 = ls[0].len() as int;
        let head = ls[0] + seq![DOT];
        assert(t[l0] == head[l0]);
        assert(t[l0] == DOT);
        lemma_first_dot_char(t);
        match first_dot(t) {
            None => {
                assert(t[l0] != DOT);
            },
            Some(k) => {
                if k < l0 {
                    assert(t[k] == head[k]);
                    assert(t[k] == ls[0][k]);
                    assert(is_name_byte(ls[0][k]));
                } else if k > l0 {
                    assert(t[l0] != DOT);
                }
                assert(k == l0);
                assert(t.subrange(0, l0) =~= ls[0]) by {
                    assert forall|j: int| 0 <= j < l0 implies t.subrange(0, l0)[j]
                        == ls[0][j] by {
                        assert(t[j] == head[j]);
                    }
                }
                assert(t.skip(l0 + 1) =~= render_labels(ls.skip(1))) by {
                    assert forall|j: int|
                        0 <= j < t.len() - l0 - 1 implies t.skip(l0 + 1)[j] == render_labels(
                        ls.skip(1),
                    )[j] by {
                        assert(t[l0 + 1 + j] == render_labels(ls.skip(1))[j]);
                    }
                }
                assert forall|i: int| 0 <= i < ls.skip(1).len() implies valid_label(
                    #[trigger] ls.skip(1)[i],
                ) by {
                    assert(ls.skip(1)[i] == ls[i + 1]);
                }
                lemma_parse_render(ls.skip(1));
                assert(seq![t.subrange(0, l0)] + ls.skip(1) =~= ls);
            },
        }
    }
}

/// The textual round trip: parsing the canonical text of a well-formed
/// name yields the name back.
pub proof fn lemma_name_text_round_trip(ls: Seq<Seq<u8>>)
    requires
        valid_labels(ls),
    ensures
        name_text_labels(name_text(ls)) == Some(ls),
{
    if ls.len() == 0 {
        assert(name_text(ls) == seq![DOT]);
        assert(Seq::<Seq<u8>>::empty() =~= ls);
    } else {
        let t = render_labels(ls);
        assert(valid_label(ls[0]));
        assert(t[0] == (ls[0] + seq![DOT])[0]);
        assert(is_name_byte(ls[0][0]));
        assert(t.len() >= 2) by {
            lemma_render_ends_with_dot(ls);
            assert(t[0] != DOT);
            assert(t[t.len() - 1] == DOT);
        }
        assert(t != seq![DOT]) by {
            if t == seq![DOT] {
                assert(t.len() == 1);
            }
        }
        lemma_render_lower(ls);
        lemma_render_ends_with_dot(ls);
        assert(with_dot(lower_bytes(t)) == t);
        lemma_parse_render(ls);
    }
}

/// Byte equality of two vectors.
pub fn bytes_eq(a: &Vec<u8>, b: &Vec<u8>) -> (r: bool)
    ensures
        r == (a@ == b@),
{
    if a.len() != b.len() {
        return false;
    }
    let mut i: usize = 0;
    while i < a.len()
        invariant
            i <= a.len(),
            a.len() == b.len(),
            forall|j: int| 0 <= j < i ==> a@[j] == b@[j],
        decreases a.len() - i,
    {
        if a[i] != b[i] {
            return false;
        }
        i += 1;
    }
    proof {
        assert(a@ =~= b@);
    }
    true
}

fn is_name_byte_x(b: u8) -> (r: bool)
    ensures
        r == is_name_byte(b),
{
    (LC_A <= b && b <= LC_Z) || (DIG_0 <= b && b <= DIG_9) || b == HYPHEN || b == UNDERSCORE || b == STAR
}

pub fn lower_byte_x(b: u8) -> (r: u8)
    ensures
        r == lower_byte(b),
{
    if UC_A <= b && b <= UC_Z {
        b + 32
    } else {
        b
    }
}

/// Find the first dot in `d` at or after `pos`.
pub fn first_dot_from(d: &Vec<u8>, pos: usize) -> (r: Option<usize>)
    requires
        pos <= d@.len(),
    ensures
        match r {
            Some(k) => pos <= k < d@.len() && first_dot(d@.skip(pos as int)) == Some(
                k - pos as int,
            ),
            None => first_dot(d@.skip(pos as int)) is None,
        },
{
    let mut j: usize = pos;
    while j < d.len()
        invariant
            pos <= j <= d@.len(),
            forall|t: int| pos <= t < j ==> d@[t] != DOT,
        decreases d@.len() - j,
    {
        if d[j] == DOT {
            proof {
                lemma_first_dot_char(d@.skip(pos as int));
                match first_dot(d@.skip(pos as int)) {
                    None => {
                        assert(d@.skip(pos as int)[j - pos] == DOT);
                    },
                    Some(k) => {
                        if k < j - pos {
                            assert(d@[k + pos] == DOT);
                        }
                        if k > j - pos {
                            assert(d@.skip(pos as int)[j - pos] != DOT);
                        }
                    },
                }
            }
            return Some(j);
        }
        j += 1;
    }
    proof {
        lemma_first_dot_char(d@.skip(pos as int));
        if let Some(k) = first_dot(d@.skip(pos as int)) {
            assert(d@[k + pos] == DOT);
        }
    }
    None
}

/// Copy `d[pos..k]` out as one label, checking it is a valid label.
fn copy_label(d: &Vec<u8>, pos: usize, k: usize) -> (r: Option<Vec<u8>>)
    requires
        pos <= k <= d@.len(),
    ensures
        match r {
            Some(l) => l@ == d@.subrange(pos as int, k as int) && valid_label(l@),
            None => !valid_label(d@.subrange(pos as int, k as int)),
        },
{
    let ghost seg = d@.subrange(pos as int, k as int);
    if k - pos == 0 || k - pos > 63 {
        return None;
    }
    let mut lab: Vec<u8> = Vec::new();
    let mut j: usize = pos;
    proof {
        assert(lab@ =~= seg.take(0));
    }
    while j < k
        invariant
            pos <= j <= k <= d@.len(),
            seg == d@.subrange(pos as int, k as int),
            1 <= k - pos <= 63,
            lab@ == seg.take(j - pos),
            forall|t: int| 0 <= t < lab@.len() ==> is_name_byte(#[trigger] lab@[t]),
        decreases k - j,
    {
        let b = d[j];
        if !is_name_byte_x(b) {
            proof {
                assert(seg[j - pos] == b);
            }
            return None;
        }
        lab.push(b);
        proof {
            assert(lab@ =~= seg.take(j - pos + 1));
        }
        j += 1;
    }
    proof {
        assert(lab@ =~= seg);
    }
    Some(lab)
}

impl Name {
    /// All stored labels are valid and the name fits in 255 wire bytes.
    pub open spec fn wf(&self) -> bool {
        valid_labels(self@)
    }

    /// The root name (no labels).
    pub fn root() -> (r: Name)
        ensures
            r@ == Seq::<Seq<u8>>::empty(),
            r.wf(),
    {
        let r = Name { labels: Vec::new() };
        proof {
            assert(r@ =~= Seq::<Seq<u8>>::empty());
        }
        r
    }

    /// Build a name from already-normalised labels.
    pub fn from_labels(labels: Vec<Vec<u8>>) -> (r: Option<Name>)
        ensures
            match r {
                Some(n) => n@ == labels_view(labels) && n.wf(),
                None => !valid_labels(labels_view(labels)),
            },
    {
        let ghost lv = labels_view(labels);
        let mut i: usize = 0;
        let mut wire: usize = 1;
        proof {
            assert(lv.take(0) =~= Seq::<Seq<u8>>::empty());
        }
        while i < labels.len()
            invariant
                i <= labels.len(),
                lv == labels_view(labels),
                wire == labels_wire_len(lv.take(i as int)),
                wire <= 255,
                forall|j: int| 0 <= j < i ==> valid_label(#[trigger] lv[j]),
            decreases labels.len() - i,
        {
            let l = &labels[i];
            if l.len() == 0 || l.len() > 63 {
                proof {
                    assert(!valid_label(lv[i as int]));
                }
                return None;
            }
            let mut j: usize = 0;
            while j < l.len()
                invariant
                    i < labels.len(),
                    lv == labels_view(labels),
                    l@ == lv[i as int],
                    j <= l@.len(),
                    forall|t: int| 0 <= t < j ==> is_name_byte(#[trigger] l@[t]),
                decreases l@.len() - j,
            {
                if !is_name_byte_x(l[j]) {
                    proof {
                        assert(!valid_label(lv[i as int]));
                    }
                    return None;
                }
                j += 1;
            }
            proof {
                assert(valid_label(lv[i as int]));
            }
            if wire > 255 - 1 - l.len() {
                proof {
                    lemma_take_one_more(lv, i as int);
                    lemma_wire_len_parts(lv.take(i as int), seq![lv[i as int]]);
                    assert(seq![lv[i as int]].skip(1) =~= Seq::<Seq<u8>>::empty());
                    assert(labels_wire_len(Seq::<Seq<u8>>::empty()) == 1);
                    assert(labels_wire_len(seq![lv[i as int]]) == 2 + lv[i as int].len());
                    assert(l@.len() == lv[i as int].len());
                    lemma_wire_len_parts(lv.take(i as int + 1), lv.skip(i as int + 1));
                    assert(lv.take(i as int + 1) + lv.skip(i as int + 1) =~= lv);
                    assert(labels_wire_len(lv) > 255);
                }
                return None;
            }
            proof {
                lemma_take_one_more(lv, i as int);
                lemma_wire_len_parts(lv.take(i as int), seq![lv[i as int]]);
                assert(seq![lv[i as int]].skip(1) =~= Seq::<Seq<u8>>::empty());
                assert(labels_wire_len(Seq::<Seq<u8>>::empty()) == 1);
                assert(labels_wire_len(seq![lv[i as int]]) == 2 + lv[i as int].len());
                assert(l@.len() == lv[i as int].len());
                assert(labels_wire_len(lv.take(i as int + 1)) == wire + 1 + l@.len());
            }
            wire = wire + 1 + l.len();
            i += 1;
        }
        proof {
            assert(lv.take(labels.len() as int) =~= lv);
            assert(labels_wire_len(lv) <= 255);
            assert(valid_labels(lv));
        }
        let n = Name { labels };
        proof {
            assert(n@ == lv);
            assert(n.wf());
        }
        Some(n)
    }

    /// Number of labels.
    pub fn label_count(&self) -> (r: usize)
        ensures
            r == self@.len(),
    {
        self.labels.len()
    }

    pub fn is_root(&self) -> (r: bool)
        ensures
            r == (self@.len() == 0),
    {
        self.labels.len() == 0
    }

    /// Case-normalised name equality.
    pub fn equals(&self, other: &Name) -> (r: bool)
        ensures
            r == (self@ == other@),
    {
        if self.labels.len() != other.labels.len() {
            proof {
                assert(self@.len() != other@.len());
            }
            return false;
        }
        let mut i: usize = 0;
        while i < self.labels.len()
            invariant
                i <= self.labels.len(),
                self.labels.len() == other.labels.len(),
                forall|j: int| 0 <= j < i ==> self@[j] == other@[j],
            decreases self.labels.len() - i,
        {
            if !bytes_eq(&self.labels[i], &other.labels[i]) {
                proof {
                    assert(self@[i as int] != other@[i as int]);
                }
                return false;
            }
            i += 1;
        }
        proof {
            assert(self@ =~= other@);
        }
        true
    }

    /// True iff `self` lies at or below `other`: `other`'s labels are a
    /// suffix of `self`'s.
    pub fn is_subdomain(&self, other: &Name) -> (r: bool)
        ensures
            r == suffix_of(other@, self@),
    {
        if other.labels.len() > self.labels.len() {
            proof {
                assert(other@.len() > self@.len());
            }
            return false;
        }
        let off = self.labels.len() - other.labels.len();
        let mut i: usize = 0;
        while i < other.labels.len()
            invariant
                i <= other.labels.len(),
                off == self.labels.len() - other.labels.len(),
                other.labels.len() <= self.labels.len(),
                forall|j: int| 0 <= j < i ==> self@[off + j] == other@[j],
            decreases other.labels.len() - i,
        {
            if !bytes_eq(&self.labels[off + i], &other.labels[i]) {
                proof {
                    assert(self@[off + i] != other@[i as int]);
                    if suffix_of(other@, self@) {
                        assert(self@.skip(off as int)[i as int] == other@[i as int]);
                    }
                }
                return false;
            }
            i += 1;
        }
        proof {
            assert(self@.skip(off as int) =~= other@);
        }
        true
    }

    /// The name one label below `self`.
    pub fn child(&self, label: &Vec<u8>) -> (r: Name)
        requires
            valid_label(label@),
            1 + label@.len() + labels_wire_len(self@) <= 255,
        ensures
            r@ == seq![label@] + self@,
            self.wf() ==> r.wf(),
    {
        let mut labels: Vec<Vec<u8>> = Vec::new();
        labels.push(clone_bytes(label));
        let mut i: usize = 0;
        while i < self.labels.len()
            invariant
                i <= self.labels.len(),
                labels@.len() == 1 + i,
                labels@[0]@ == label@,
                forall|t: int| 0 <= t < i ==> labels@[t + 1]@ == self@[t],
            decreases self.labels.len() - i,
        {
            labels.push(clone_bytes(&self.labels[i]));
            i += 1;
        }
        let r = Name { labels };
        proof {
            assert(r@ =~= seq![label@] + self@);
            if self.wf() {
                lemma_wire_len_parts(seq![label@], self@);
                assert(seq![label@].skip(1) =~= Seq::<Seq<u8>>::empty());
                assert(labels_wire_len(Seq::<Seq<u8>>::empty()) == 1);
                assert(labels_wire_len(seq![label@]) == 2 + label@.len());
                assert(labels_wire_len(r@) <= 255);
                assert forall|t: int| 0 <= t < r@.len() implies valid_label(#[trigger] r@[t]) by {
                    if t == 0 {
                        assert(r@[t] == label@);
                    } else {
                        assert(r@[t] == self@[t - 1]);
                    }
                }
            }
        }
        r
    }

    /// Parse name text: labels joined by dots, case-insensitive, trailing
    /// dot optional, `.` alone for the root.
    pub fn from_text(s: &[u8]) -> (r: Option<Name>)
        ensures
            match r {
                Some(n) => name_text_labels(s@) == Some(n@) && n.wf(),
                None => name_text_labels(s@) is None,
            },
    {
        if s.len() == 1 && s[0] == DOT {
            proof {
                assert(s@ =~= seq![DOT]);
            }
            return Some(Name::root());
        }
        proof {
            assert(s@ != seq![DOT]) by {
                if s@ == seq![DOT] {
                    assert(s@.len() == 1 && s@[0] == DOT);
                }
            }
        }
        // Normalise: lower-case and ensure a trailing dot.
        let mut d: Vec<u8> = Vec::new();
        let mut i: usize = 0;
        proof {
            assert(d@ =~= lower_bytes(s@.take(0)));
        }
        while i < s.len()
            invariant
                i <= s@.len(),
                d@ == lower_bytes(s@.take(i as int)),
            decreases s@.len() - i,
        {
            d.push(lower_byte_x(s[i]));
            proof {
                assert(d@ =~= lower_bytes(s@.take(i as int + 1)));
            }
            i += 1;
        }
        proof {
            assert(s@.take(s@.len() as int) =~= s@);
        }
        if d.len() == 0 || d[d.len() - 1] != DOT {
            d.push(DOT);
            proof {
                if lower_bytes(s@).len() > 0 {
                    assert(lower_bytes(s@)[s@.len() - 1] == lower_byte(s@[s@.len() - 1]));
                }
                assert(d@ == with_dot(lower_bytes(s@)));
            }
        } else {
            proof {
                assert(lower_bytes(s@)[s@.len() - 1] == lower_byte(s@[s@.len() - 1]));
                assert(d@ == with_dot(lower_bytes(s@)));
            }
        }
        let ghost dd = d@;
        let mut labels: Vec<Vec<u8>> = Vec::new();
        let mut pos: usize = 0;
        let mut wire: usize = 1;
        proof {
            assert(labels_view(labels) =~= Seq::<Seq<u8>>::empty());
            assert(dd.skip(0) =~= dd);
        }
        while pos < d.len()
            invariant
                pos <= d@.len(),
                d@ == dd,
                dd == with_dot(lower_bytes(s@)),
                s@ != seq![DOT],
                wire == labels_wire_len(labels_view(labels)),
                wire <= 255,
                forall|j: int| 0 <= j < labels_view(labels).len() ==> valid_label(
                    #[trigger] labels_view(labels)[j],
                ),
                parse_dotted(dd) == match parse_dotted(dd.skip(pos as int)) {
                    Some(rest) => Some(labels_view(labels) + rest),
                    None => None::<Seq<Seq<u8>>>,
                },
            decreases d@.len() - pos,
        {
            match first_dot_from(&d, pos) {
                None => {
                    return None;
                },
                Some(k) => {
                    let ghost tail = dd.skip(pos as int);
                    proof {
                        assert(tail.subrange(0, k - pos) =~= dd.subrange(pos as int, k as int));
                        assert(tail.skip(k - pos + 1) =~= dd.skip(k as int + 1));
                    }
                    let lab = match copy_label(&d, pos, k) {
                        None => {
                            // The label is invalid, so the parse of the
                            // remaining text fails, and with it the whole.
                            return None;
                        },
                        Some(lab) => lab,
                    };
                    let llen = k - pos;
                    if wire > 255 - 1 - llen {
                        // The parsed labels only grow from here on, so the
                        // whole name would exceed the wire limit.
                        proof {
                            lemma_wire_len_parts(labels_view(labels), seq![lab@]);
                            assert(seq![lab@].skip(1) =~= Seq::<Seq<u8>>::empty());
                            assert(labels_wire_len(Seq::<Seq<u8>>::empty()) == 1);
                            assert(labels_wire_len(seq![lab@]) == 2 + lab@.len());
                            if parse_dotted(dd) is Some {
                                let rest = parse_dotted(tail)->Some_0;
                                let rest2 = parse_dotted(dd.skip(k as int + 1))->Some_0;
                                assert(rest == seq![lab@] + rest2);
                                lemma_wire_len_parts(seq![lab@], rest2);
                                lemma_wire_len_parts(labels_view(labels), rest);
                                assert(labels_wire_len(labels_view(labels) + rest) > 255);
                            }
                        }
                        return None;
                    }
                    proof {
                        lemma_wire_len_parts(labels_view(labels), seq![lab@]);
                        assert(seq![lab@].skip(1) =~= Seq::<Seq<u8>>::empty());
                        assert(labels_wire_len(Seq::<Seq<u8>>::empty()) == 1);
                        assert(labels_wire_len(seq![lab@]) == 2 + lab@.len());
                        let lv = labels_view(labels);
                        if parse_dotted(dd.skip(k as int + 1)) is Some {
                            let rest2 = parse_dotted(dd.skip(k as int + 1))->Some_0;
                            assert(lv + (seq![lab@] + rest2) =~= (lv + seq![lab@]) + rest2);
                        }
                    }
                    let ghost old_lv = labels_view(labels);
                    let ghost lab_v = lab@;
                    wire = wire + 1 + llen;
                    labels.push(lab);
                    proof {
                        assert(labels_view(labels) =~= old_lv + seq![lab_v]);
                    }
                    pos = k + 1;
                },
            }
        }
        proof {
            assert(dd.skip(pos as int) =~= Seq::<u8>::empty());
            assert(parse_dotted(dd.skip(pos as int)) == Some(Seq::<Seq<u8>>::empty()));
            assert(labels_view(labels) + Seq::<Seq<u8>>::empty() =~= labels_view(labels));
        }
        let n = Name { labels };
        Some(n)
    }

    /// Render the canonical text of the name.
    pub fn to_text(&self) -> (r: Vec<u8>)
        ensures
            r@ == name_text(self@),
    {
        let mut r: Vec<u8> = Vec::new();
        if self.labels.len() == 0 {
            r.push(DOT);
            proof {
                assert(r@ =~= seq![DOT]);
            }
            return r;
        }
        let mut i: usize = 0;
        proof {
            assert(r@ =~= render_labels(self@.take(0)));
        }
        while i < self.labels.len()
            invariant
                i <= self.labels.len(),
                r@ == render_labels(self@.take(i as int)),
            decreases self.labels.len() - i,
        {
            let l = &self.labels[i];
            let mut j: usize = 0;
            while j < l.len()
                invariant
                    j <= l@.len(),
                    r@ == render_labels(self@.take(i as int)) + l@.take(j as int),
                    i < self.labels.len(),
                    l@ == self@[i as int],
                decreases l@.len() - j,
            {
                r.push(l[j]);
                proof {
                    assert(render_labels(self@.take(i as int)) + l@.take(j as int + 1)
                        =~= (render_labels(self@.take(i as int)) + l@.take(j as int)).push(
                        l@[j as int],
                    ));
                }
                j += 1;
            }
            r.push(DOT);
            proof {
                lemma_take_one_more(self@, i as int);
                lemma_render_concat(self@.take(i as int), seq![self@[i as int]]);
                assert(seq![self@[i as int]].skip(1) =~= Seq::<Seq<u8>>::empty());
                assert(render_labels(Seq::<Seq<u8>>::empty()) =~= Seq::<u8>::empty());
                assert(render_labels(seq![self@[i as int]]) =~= self@[i as int] + seq![DOT]);
                assert(l@.take(l@.len() as int) =~= l@);
                assert(r@ =~= render_labels(self@.take(i as int)) + (self@[i as int]
                    + seq![DOT]));
            }
            i += 1;
        }
        proof {
            assert(self@.take(self.labels.len() as int) =~= self@);
        }
        r
    }
}

impl Clone for Name {
    /// Clones keep the label sequence.
    fn clone(&self) -> (r: Self)
        ensures
            r@ == self@,
    {
        let mut labels: Vec<Vec<u8>> = Vec::new();
        let mut i: usize = 0;
        while i < self.labels.len()
            invariant
                i <= self.labels.len(),
                labels_view(labels) =~= self@.take(i as int),
            decreases self.labels.len() - i,
        {
            labels.push(clone_bytes(&self.labels[i]));
            proof {
                lemma_take_one_more(self@, i as int);
            }
            i += 1;
        }
        proof {
            assert(self@.take(self.labels.len() as int) =~= self@);
        }
        let r = Name { labels };
        proof {
            assert(r@ =~= self@);
        }
        r
    }
}

/// Clone a byte vector, keeping its contents.
pub fn clone_bytes(v: &Vec<u8>) -> (r: Vec<u8>)
    ensures
        r@ == v@,
{
    let r = v.clone();
    proof {
        assert forall|i: int| 0 <= i < v@.len() implies r@[i] == v@[i] by {
            assert(vstd::pervasive::cloned::<u8>(v@[i], r@[i]));
        }
        assert(r@ =~= v@);
    }
    r
}

proof fn lemma_take_one_more<T>(s: Seq<T>, i: int)
    requires
        0 <= i < s.len(),
    ensures
        s.take(i + 1) =~= s.take(i).push(s[i]),
        s.take(i + 1) =~= s.take(i) + seq![s[i]],
{
}

} // verus!

