//! The persistence format: a small human-editable text encoding of a
//! `TilingManager` — four header lines (focus, next id, default flag, theme)
//! followed by the tree written as nested parenthesised splits and `p`anes —
//! together with a validating parser. The parser rejects malformed input,
//! duplicate or non-positive pane ids, and repairs a stale focus, an
//! inconsistent next id and out-of-range ratios, so a loaded layout is
//! always well-formed. Decoding what encoding produced gives the original
//! manager back, byte for byte on re-encoding.

use vstd::prelude::*;
use crate::layout::{LayoutNode, SplitDirection, ViewType, ThemeType, TilingManager};

verus! {

/// ASCII decimal digit.
pub open spec fn is_digit(b: u8) -> bool {
    48 <= b <= 57
}

/// The decimal digits of `n`, most significant first.
pub open spec fn dec_digits(n: nat) -> Seq<u8>
    decreases n,
{
    if n < 10 {
        seq![(48 + n) as u8]
    } else {
        dec_digits(n / 10).push((48 + n % 10) as u8)
    }
}

/// The number a digit string denotes.
pub open spec fn num_val(s: Seq<u8>) -> int
    decreases s.len(),
{
    if s.len() == 0 {
        0
    } else {
        num_val(s.drop_last()) * 10 + (s.last() - 48)
    }
}

/// `dec_digits` writes only digits, at least one.
pub proof fn lemma_dec_digits_are_digits(n: nat)
    ensures
        dec_digits(n).len() >= 1,
        forall|k: int| 0 <= k < dec_digits(n).len() ==> is_digit(#[trigger] dec_digits(n)[k]),
    decreases n,
{
    if n >= 10 {
        lemma_dec_digits_are_digits(n / 10);
    }
}

/// Reading back the digits of `n` yields `n`.
pub proof fn lemma_num_val_dec(n: nat)
    ensures
        num_val(dec_digits(n)) == n,
    decreases n,
{
    if n < 10 {
        let d = dec_digits(n);
        assert(d.drop_last() =~= Seq::<u8>::empty());
        assert(num_val(d) == num_val(d.drop_last()) * 10 + (d.last() - 48));
    } else {
        lemma_num_val_dec(n / 10);
        vstd::arithmetic::div_mod::lemma_fundamental_div_mod(n as int, 10);
        let d = dec_digits(n);
        assert(d.drop_last() =~= dec_digits(n / 10));
        assert(d.last() == (48 + n % 10) as u8);
    }
}

/// A digit string's value never shrinks when digits are appended.
pub proof fn lemma_num_val_prefix(s: Seq<u8>, k: int)
    requires
        0 <= k <= s.len(),
        forall|p: int| 0 <= p < s.len() ==> is_digit(#[trigger] s[p]),
    ensures
        num_val(s) >= num_val(s.subrange(0, k)),
        num_val(s) >= 0,
    decreases s.len() - k,
{
    if k == s.len() {
        assert(s.subrange(0, k) =~= s);
        lemma_num_val_nonneg(s);
    } else {
        lemma_num_val_prefix(s, k + 1);
        let a = s.subrange(0, k);
        let b = s.subrange(0, k + 1);
        assert(b.drop_last() =~= a);
        assert(b.last() == s[k]);
        lemma_num_val_nonneg(a);
    }
}

/// A digit string's value is non-negative.
pub proof fn lemma_num_val_nonneg(s: Seq<u8>)
    requires
        forall|p: int| 0 <= p < s.len() ==> is_digit(#[trigger] s[p]),
    ensures
        num_val(s) >= 0,
    decreases s.len(),
{
    if s.len() > 0 {
        assert(forall|p: int|
            0 <= p < s.drop_last().len() ==> is_digit(#[trigger] s.drop_last()[p]));
        lemma_num_val_nonneg(s.drop_last());
    }
}

/// End of the digit run starting at `i`.
pub open spec fn num_end(s: Seq<u8>, i: int) -> int
    decreases s.len() - i
        when 0 <= i <= s.len()
{
    if i < s.len() && is_digit(s[i]) {
        num_end(s, i + 1)
    } else {
        i
    }
}

/// The digit run is a well-delimited block: it stays inside the input,
/// holds only digits, and stops right before a non-digit or the end.
pub proof fn lemma_num_end_bounds(s: Seq<u8>, i: int)
    requires
        0 <= i <= s.len(),
    ensures
        i <= num_end(s, i) <= s.len(),
        forall|k: int| i <= k < num_end(s, i) ==> is_digit(#[trigger] s[k]),
        num_end(s, i) == s.len() || !is_digit(s[num_end(s, i)]),
    decreases s.len() - i,
{
    if i < s.len() && is_digit(s[i]) {
        lemma_num_end_bounds(s, i + 1);
    }
}

/// A run of digits followed by a delimiter ends exactly at the delimiter.
pub proof fn lemma_num_end_of_digits(s: Seq<u8>, i: int, j: int)
    requires
        0 <= i <= j <= s.len(),
        forall|k: int| i <= k < j ==> is_digit(#[trigger] s[k]),
        j == s.len() || !is_digit(s[j]),
    ensures
        num_end(s, i) == j,
    decreases j - i,
{
    if i < j {
        lemma_num_end_of_digits(s, i + 1, j);
    }
}

/// A number read at position `i`: the value of the maximal digit run
/// starting there, refused when there is no digit or the value does not
/// fit in `usize`.
pub open spec fn parse_num_at(s: Seq<u8>, i: int) -> Option<(int, int)> {
    if 0 <= i < s.len() && is_digit(s[i]) {
        let j = num_end(s, i);
        let v = num_val(s.subrange(i, j));
        if v <= usize::MAX {
            Some((v, j))
        } else {
            None
        }
    } else {
        None
    }
}

/// Reads a decimal number at position `i`.
fn parse_num(data: &Vec<u8>, i: usize) -> (r: Option<(usize, usize)>)
    requires
        i <= data@.len(),
    ensures
        (match r {
            Some((v, j)) => parse_num_at(data@, i as int) == Some((v as int, j as int)) && i < j
                <= data@.len(),
            None => parse_num_at(data@, i as int) is None,
        }),
{
    if i >= data.len() || data[i] < 48 || data[i] > 57 {
        return None;
    }
    proof {
        lemma_num_end_bounds(data@, i as int);
        lemma_num_end_bounds(data@, i as int + 1);
        assert(num_end(data@, i as int) == num_end(data@, i as int + 1));
    }
    let ghost end = num_end(data@, i as int);
    let mut j: usize = i;
    let mut acc: usize = 0;
    loop
        invariant
            i <= j <= end <= data@.len(),
            (i as int) < end,
            forall|k: int| i <= k < end ==> is_digit(#[trigger] data@[k]),
            end == data@.len() || !is_digit(data@[end]),
            end == num_end(data@, i as int),
            acc == num_val(data@.subrange(i as int, j as int)),
            is_digit(data@[i as int]),
        ensures
            j == end,
            acc == num_val(data@.subrange(i as int, end)),
        decreases end - j,
    {
        if j >= data.len() || data[j] < 48 || data[j] > 57 {
            proof {
                assert(j == end);
                assert(num_val(data@.subrange(i as int, end)) <= usize::MAX);
            }
            break ;
        }
        proof {
            assert(j < end);
        }
        let d = data[j] - 48;
        if acc > (usize::MAX - d as usize) / 10 {
            // The run's value exceeds what a usize can hold.
            proof {
                let part = data@.subrange(i as int, j as int + 1);
                assert(part.drop_last() =~= data@.subrange(i as int, j as int));
                assert(part.last() == data@[j as int]);
                assert(num_val(part) == acc * 10 + d);
                assert(acc * 10 + d > usize::MAX) by {
                    let q = (usize::MAX - d as usize) / 10;
                    assert(usize::MAX - d == 10 * q + (usize::MAX - d) % 10) by {
                        vstd::arithmetic::div_mod::lemma_fundamental_div_mod(
                            usize::MAX - d,
                            10,
                        );
                    }
                    assert(acc >= q + 1);
                    assert(acc * 10 >= (q + 1) * 10) by (nonlinear_arith)
                        requires
                            acc >= q + 1,
                    ;
                }
                let whole = data@.subrange(i as int, end);
                assert(forall|p: int| 0 <= p < whole.len() ==> is_digit(#[trigger] whole[p]));
                assert(whole.subrange(0, j as int + 1 - i) =~= part);
                lemma_num_val_prefix(whole, j as int + 1 - i);
                assert(num_val(whole) > usize::MAX);
                assert(parse_num_at(data@, i as int) is None);
            }
            return None;
        }
        proof {
            let part = data@.subrange(i as int, j as int + 1);
            assert(part.drop_last() =~= data@.subrange(i as int, j as int));
            assert(part.last() == data@[j as int]);
            let q = (usize::MAX - d as usize) / 10;
            assert(usize::MAX - d == 10 * q + (usize::MAX - d) % 10) by {
                vstd::arithmetic::div_mod::lemma_fundamental_div_mod(usize::MAX - d, 10);
            }
            assert(acc * 10 <= q * 10) by (nonlinear_arith)
                requires
                    acc <= q,
            ;
        }
        acc = acc * 10 + (d as usize);
        j += 1;
    }
    proof {
        assert(parse_num_at(data@, i as int) == Some((acc as int, j as int)));
    }
    Some((acc, j))
}

/// One-byte tag for a view.
pub open spec fn view_code(v: ViewType) -> u8 {
    match v {
        ViewType::Empty => 101,  // 'e'
        ViewType::Dashboard => 100,  // 'd'
        ViewType::Polar => 112,  // 'p'
        ViewType::Isometric => 105,  // 'i'
        ViewType::Spectrogram => 115,  // 's'
        ViewType::Phase => 104,  // 'h'
        ViewType::Camera => 99,  // 'c'
        ViewType::RawScatter => 114,  // 'r'
    }
}

/// The view a tag byte names, if any.
pub open spec fn view_of_code(b: u8) -> Option<ViewType> {
    if b == 101 {
        Some(ViewType::Empty)
    } else if b == 100 {
        Some(ViewType::Dashboard)
    } else if b == 112 {
        Some(ViewType::Polar)
    } else if b == 105 {
        Some(ViewType::Isometric)
    } else if b == 115 {
        Some(ViewType::Spectrogram)
    } else if b == 104 {
        Some(ViewType::Phase)
    } else if b == 99 {
        Some(ViewType::Camera)
    } else if b == 114 {
        Some(ViewType::RawScatter)
    } else {
        None
    }
}

/// One-byte tag for a split axis.
pub open spec fn dir_code(d: SplitDirection) -> u8 {
    match d {
        SplitDirection::Horizontal => 104,  // 'h'
        SplitDirection::Vertical => 118,  // 'v'
    }
}

/// The axis a tag byte names, if any.
pub open spec fn dir_of_code(b: u8) -> Option<SplitDirection> {
    if b == 104 {
        Some(SplitDirection::Horizontal)
    } else if b == 118 {
        Some(SplitDirection::Vertical)
    } else {
        None
    }
}

/// One-byte tag for the optional theme preference.
pub open spec fn theme_code(t: Option<ThemeType>) -> u8 {
    match t {
        None => 45,  // '-'
        Some(ThemeType::Dark) => 100,  // 'd'
        Some(ThemeType::Light) => 108,  // 'l'
        Some(ThemeType::Nordic) => 110,  // 'n'
        Some(ThemeType::Gruvbox) => 103,  // 'g'
        Some(ThemeType::Catppuccin) => 99,  // 'c'
    }
}

/// The theme preference a tag byte names, if the byte is legal.
pub open spec fn theme_of_code(b: u8) -> Option<Option<ThemeType>> {
    if b == 45 {
        Some(None)
    } else if b == 100 {
        Some(Some(ThemeType::Dark))
    } else if b == 108 {
        Some(Some(ThemeType::Light))
    } else if b == 110 {
        Some(Some(ThemeType::Nordic))
    } else if b == 103 {
        Some(Some(ThemeType::Gruvbox))
    } else if b == 99 {
        Some(Some(ThemeType::Catppuccin))
    } else {
        None
    }
}

/// The byte encoding of a tree node: a pane is `p <id> <view>`, a split is
/// `(<axis> <ratio> <first child> <second child>)`.
pub open spec fn enc_node(n: LayoutNode) -> Seq<u8>
    decreases n,
{
    match n {
        LayoutNode::Pane { id, view } => seq![112u8, 32u8] + dec_digits(id as nat) + seq![
            32u8,
            view_code(view),
        ],
        LayoutNode::Split { direction, ratio, left, right } => seq![40u8, dir_code(direction), 32u8]
            + dec_digits(ratio as nat) + seq![32u8] + enc_node(*left) + seq![32u8] + enc_node(
            *right,
        ) + seq![41u8],
    }
}

/// A tree node read at position `i`, with the position just past it.
/// Refused: unknown tags, missing separators, a pane id of zero or one too
/// large for `usize`, a ratio too large for `u16`.
pub open spec fn parse_node_at(s: Seq<u8>, i: int) -> Option<(LayoutNode, int)>
    decreases s.len() - i
        when 0 <= i <= s.len()
        via parse_node_at_dec
{
    if i >= s.len() {
        None
    } else if s[i] == 112 {
        if i + 1 < s.len() && s[i + 1] == 32 {
            match parse_num_at(s, i + 2) {
                Some((v, j)) => {
                    if v >= 1 && j + 1 < s.len() && s[j] == 32 {
                        match view_of_code(s[j + 1]) {
                            Some(view) => Some((LayoutNode::Pane { id: v as usize, view }, j + 2)),
                            None => None,
                        }
                    } else {
                        None
                    }
                },
                None => None,
            }
        } else {
            None
        }
    } else if s[i] == 40 {
        if i + 2 < s.len() && s[i + 2] == 32 {
            match dir_of_code(s[i + 1]) {
                Some(direction) => {
                    match parse_num_at(s, i + 3) {
                        Some((rv, j)) => {
                            if rv <= u16::MAX && j < s.len() && s[j] == 32 {
                                match parse_node_at(s, j + 1) {
                                    Some((left, k)) => {
                                        if j + 1 <= k && k < s.len() && s[k] == 32 {
                                            match parse_node_at(s, k + 1) {
                                                Some((right, m)) => {
                                                    if m < s.len() && s[m] == 41 {
                                                        Some(
                                                            (
                                                                LayoutNode::Split {
                                                                    direction,
                                                                    ratio: rv as u16,
                                                                    left: Box::new(left),
                                                                    right: Box::new(right),
                                                                },
                                                                m + 1,
                                                            ),
                                                        )
                                                    } else {
                                                        None
                                                    }
                                                },
                                                None => None,
                                            }
                                        } else {
                                            None
                                        }
                                    },
                                    None => None,
                                }
                            } else {
                                None
                            }
                        },
                        None => None,
                    }
                },
                None => None,
            }
        } else {
            None
        }
    } else {
        None
    }
}

#[via_fn]
proof fn parse_node_at_dec(s: Seq<u8>, i: int) {
    if 0 <= i + 3 <= s.len() {
        lemma_num_end_bounds(s, i + 3);
    }
}

/// Every pane id in the tree is positive.
pub open spec fn ids_positive(node: LayoutNode) -> bool {
    forall|k: int| 0 <= k < node.pane_ids().len() ==> #[trigger] node.pane_ids()[k] >= 1
}

/// A view tag byte names the view it was written for.
pub proof fn lemma_view_code_inverse(v: ViewType)
    ensures
        view_of_code(view_code(v)) == Some(v),
{
    match v {
        ViewType::Empty => {},
        ViewType::Dashboard => {},
        ViewType::Polar => {},
        ViewType::Isometric => {},
        ViewType::Spectrogram => {},
        ViewType::Phase => {},
        ViewType::Camera => {},
        ViewType::RawScatter => {},
    }
}

/// An axis tag byte names the axis it was written for.
pub proof fn lemma_dir_code_inverse(d: SplitDirection)
    ensures
        dir_of_code(dir_code(d)) == Some(d),
{
    match d {
        SplitDirection::Horizontal => {},
        SplitDirection::Vertical => {},
    }
}

/// A theme tag byte names the preference it was written for.
pub proof fn lemma_theme_code_inverse(t: Option<ThemeType>)
    ensures
        theme_of_code(theme_code(t)) == Some(t),
{
    match t {
        None => {},
        Some(ThemeType::Dark) => {},
        Some(ThemeType::Light) => {},
        Some(ThemeType::Nordic) => {},
        Some(ThemeType::Gruvbox) => {},
        Some(ThemeType::Catppuccin) => {},
    }
}

/// Reading a number where the digits of `n` were written, with a non-digit
/// delimiter right after them, yields `n` and stops at the delimiter.
pub proof fn lemma_parse_num_at_enc(s: Seq<u8>, i: int, n: nat)
    requires
        0 <= i,
        i + dec_digits(n).len() <= s.len(),
        s.subrange(i, i + dec_digits(n).len()) == dec_digits(n),
        i + dec_digits(n).len() == s.len() || !is_digit(s[i + dec_digits(n).len()]),
        n <= usize::MAX,
    ensures
        parse_num_at(s, i) == Some((n as int, i + dec_digits(n).len())),
{
    let d = dec_digits(n);
    lemma_dec_digits_are_digits(n);
    assert forall|k: int| i <= k < i + d.len() implies is_digit(#[trigger] s[k]) by {
        assert(s.subrange(i, i + d.len())[k - i] == s[k]);
        assert(s[k] == d[k - i]);
    }
    lemma_num_end_of_digits(s, i, i + d.len());
    assert(s[i] == d[0]);
    lemma_num_val_dec(n);
}

/// Reading a node where the encoding of `node` was written yields exactly
/// `node` and stops right past the encoding.
#[verifier::rlimit(60)]
pub proof fn lemma_parse_node_enc(node: LayoutNode, s: Seq<u8>, i: int)
    requires
        0 <= i,
        i + enc_node(node).len() <= s.len(),
        s.subrange(i, i + enc_node(node).len()) == enc_node(node),
        ids_positive(node),
    ensures
        parse_node_at(s, i) == Some((node, i + enc_node(node).len())),
    decreases node,
{
    let e = enc_node(node);
    assert forall|p: int| 0 <= p < e.len() implies s[i + p] == e[p] by {
        assert(s.subrange(i, i + e.len())[p] == s[i + p]);
    }
    match node {
        LayoutNode::Pane { id, view } => {
            let d = dec_digits(id as nat);
            let p1 = seq![112u8, 32u8];
            let p2 = p1 + d;
            assert(e == p2 + seq![32u8, view_code(view)]);
            lemma_dec_digits_are_digits(id as nat);
            assert(e[0] == 112);
            assert(e[1] == 32);
            assert forall|k: int| 0 <= k < d.len() implies e[2 + k] == d[k] by {
                assert(p2[2 + k] == d[k]);
            }
            assert(e[2 + d.len() as int] == 32);
            assert(e[3 + d.len() as int] == view_code(view));
            assert(s.subrange(i + 2, i + 2 + d.len() as int) =~= d);
            assert(!is_digit(s[i + 2 + d.len() as int]));
            lemma_parse_num_at_enc(s, i + 2, id as nat);
            lemma_view_code_inverse(view);
            assert(node.pane_ids()[0] == id as int);
            assert(id >= 1);
            let j = i + 2 + d.len() as int;
            assert(parse_num_at(s, i + 2) == Some((id as int, j)));
            assert(s[j] == 32);
            assert(s[j + 1] == view_code(view));
            assert(j + 1 < s.len());
            assert(parse_node_at(s, i) == Some((node, j + 2)));
        },
        LayoutNode::Split { direction, ratio, left, right } => {
            let dd = dec_digits(ratio as nat);
            let el = enc_node(*left);
            let er = enc_node(*right);
            let p1 = seq![40u8, dir_code(direction), 32u8];
            let p2 = p1 + dd;
            let p3 = p2 + seq![32u8];
            let p4 = p3 + el;
            let p5 = p4 + seq![32u8];
            let p6 = p5 + er;
            assert(e == p6 + seq![41u8]);
            lemma_dec_digits_are_digits(ratio as nat);
            let o2 = 3 + dd.len() as int;
            let o3 = o2 + 1;
            let o4 = o3 + el.len() as int;
            let o5 = o4 + 1;
            let o6 = o5 + er.len() as int;
            assert(e.len() == o6 + 1);
            assert(e[0] == 40);
            assert(e[1] == dir_code(direction));
            assert(e[2] == 32);
            assert forall|k: int| 0 <= k < dd.len() implies e[3 + k] == dd[k] by {
                assert(p2[3 + k] == dd[k]);
            }
            assert(e[o2] == 32);
            assert forall|k: int| 0 <= k < el.len() implies e[o3 + k] == el[k] by {
                assert(p4[o3 + k] == el[k]);
            }
            assert(e[o4] == 32);
            assert forall|k: int| 0 <= k < er.len() implies e[o5 + k] == er[k] by {
                assert(p6[o5 + k] == er[k]);
            }
            assert(e[o6] == 41);

            // The two subtrees inherit positive ids.
            assert(node.pane_ids() == left.pane_ids() + right.pane_ids());
            assert forall|k: int|
                0 <= k < left.pane_ids().len() implies #[trigger] left.pane_ids()[k] >= 1 by {
                assert(node.pane_ids()[k] == left.pane_ids()[k]);
            }
            assert forall|k: int|
                0 <= k < right.pane_ids().len() implies #[trigger] right.pane_ids()[k] >= 1 by {
                assert(node.pane_ids()[left.pane_ids().len() + k] == right.pane_ids()[k]);
            }

            // The ratio digits are delimited by the following space.
            assert(s.subrange(i + 3, i + 3 + dd.len() as int) =~= dd);
            assert(!is_digit(s[i + o2]));
            lemma_parse_num_at_enc(s, i + 3, ratio as nat);
            lemma_dir_code_inverse(direction);
            assert(parse_num_at(s, i + 3) == Some((ratio as int, i + o2)));
            assert(s[i + o2] == 32);

            // The first child parses from just after that space.
            assert(s.subrange(i + o3, i + o3 + el.len() as int) =~= el);
            lemma_parse_node_enc(*left, s, i + o3);
            assert(parse_node_at(s, i + o3) == Some((*left, i + o4)));
            assert(s[i + o4] == 32);

            // The second child parses from just after the next space.
            assert(s.subrange(i + o5, i + o5 + er.len() as int) =~= er);
            lemma_parse_node_enc(*right, s, i + o5);
            assert(parse_node_at(s, i + o5) == Some((*right, i + o6)));
            assert(s[i + o6] == 41);

            assert(s[i] == 40);
            assert(s[i + 1] == dir_code(direction));
            assert(s[i + 2] == 32);
            assert(parse_node_at(s, i) == Some((node, i + o6 + 1)));
        },
    }
}

/// The byte encoding of a whole manager: four header lines — focus id,
/// next id, default flag, theme tag — then the tree, each line ended by a
/// newline.
pub open spec fn enc_manager(tm: TilingManager) -> Seq<u8> {
    seq![102u8, 32u8] + dec_digits(tm.focused_pane_id as nat) + seq![10u8] + seq![110u8, 32u8]
        + dec_digits(tm.next_id as nat) + seq![10u8] + seq![
        100u8,
        32u8,
        (if tm.is_default {
            49u8
        } else {
            48u8
        }),
        10u8,
    ] + seq![116u8, 32u8, theme_code(tm.theme_variant), 10u8] + enc_node(tm.root) + seq![10u8]
}

/// A manager read from a whole input: the four header lines, the tree, and
/// nothing after the final newline.
pub open spec fn parse_manager(s: Seq<u8>) -> Option<TilingManager> {
    if s.len() >= 2 && s[0] == 102 && s[1] == 32 {
        match parse_num_at(s, 2) {
            Some((f, a)) => {
                if a + 2 < s.len() && s[a] == 10 && s[a + 1] == 110 && s[a + 2] == 32 {
                    match parse_num_at(s, a + 3) {
                        Some((n, b)) => {
                            if b + 8 < s.len() && s[b] == 10 && s[b + 1] == 100 && s[b + 2] == 32
                                && (s[b + 3] == 48 || s[b + 3] == 49) && s[b + 4] == 10 && s[b
                                + 5] == 116 && s[b + 6] == 32 && s[b + 8] == 10 {
                                match theme_of_code(s[b + 7]) {
                                    Some(tv) => {
                                        match parse_node_at(s, b + 9) {
                                            Some((root, m)) => {
                                                if m + 1 == s.len() && s[m] == 10 {
                                                    Some(
                                                        TilingManager {
                                                            root,
                                                            focused_pane_id: f as usize,
                                                            next_id: n as usize,
                                                            is_default: s[b + 3] == 49,
                                                            theme_variant: tv,
                                                        },
                                                    )
                                                } else {
                                                    None
                                                }
                                            },
                                            None => None,
                                        }
                                    },
                                    None => None,
                                }
                            } else {
                                None
                            }
                        },
                        None => None,
                    }
                } else {
                    None
                }
            },
            None => None,
        }
    } else {
        None
    }
}

/// The tree with every split ratio forced into [10, 90].
pub open spec fn clamp_ratios(node: LayoutNode) -> LayoutNode
    decreases node,
{
    match node {
        LayoutNode::Pane { .. } => node,
        LayoutNode::Split { direction, ratio, left, right } => LayoutNode::Split {
            direction,
            ratio: crate::layout::clamp_ratio(ratio as int) as u16,
            left: Box::new(clamp_ratios(*left)),
            right: Box::new(clamp_ratios(*right)),
        },
    }
}

/// Clamping keeps the pane ids, the first id and the largest id, makes
/// every ratio legal, and changes nothing on a tree that is already legal.
pub proof fn lemma_clamp_ratios(node: LayoutNode)
    ensures
        clamp_ratios(node).pane_ids() == node.pane_ids(),
        clamp_ratios(node).first_id() == node.first_id(),
        clamp_ratios(node).max_pane_id() == node.max_pane_id(),
        clamp_ratios(node).ratios_ok(),
        node.ratios_ok() ==> clamp_ratios(node) == node,
    decreases node,
{
    match node {
        LayoutNode::Pane { .. } => {},
        LayoutNode::Split { left, right, .. } => {
            lemma_clamp_ratios(*left);
            lemma_clamp_ratios(*right);
        },
    }
}

/// Validation and repair of a freshly parsed manager: duplicate or
/// non-positive pane ids are rejected; ratios are clamped into range, a
/// stale focus moves to the traversal-first pane, and a next id that does
/// not exceed every pane id is rewritten to the largest id plus one. A
/// manager whose repaired next id leaves no split headroom is rejected.
pub open spec fn repair(tm: TilingManager) -> Option<TilingManager> {
    let ids = tm.root.pane_ids();
    if !ids.no_duplicates() {
        None
    } else if !ids_positive(tm.root) {
        None
    } else {
        let root2 = clamp_ratios(tm.root);
        let focus = if ids.contains(tm.focused_pane_id as int) {
            tm.focused_pane_id as int
        } else {
            tm.root.first_id()
        };
        let maxid = tm.root.max_pane_id();
        let next = if tm.next_id > maxid {
            tm.next_id as int
        } else {
            maxid + 1
        };
        if next > usize::MAX || next - ids.len() > usize::MAX - 10 {
            None
        } else {
            Some(
                TilingManager {
                    root: root2,
                    focused_pane_id: focus as usize,
                    next_id: next as usize,
                    is_default: tm.is_default,
                    theme_variant: tm.theme_variant,
                },
            )
        }
    }
}

/// What loading bytes yields: a parse followed by validation and repair.
pub open spec fn spec_deserialize(s: Seq<u8>) -> Option<TilingManager> {
    match parse_manager(s) {
        Some(raw) => repair(raw),
        None => None,
    }
}

/// A repaired manager is well-formed.
pub proof fn lemma_repair_wf(tm: TilingManager)
    ensures
        (repair(tm) matches Some(r) ==> r.wf()),
{
    let ids = tm.root.pane_ids();
    if ids.no_duplicates() && ids_positive(tm.root) {
        lemma_clamp_ratios(tm.root);
        crate::layout::lemma_first_id_is_first(tm.root);
        crate::layout::lemma_max_pane_id(tm.root);
        let maxid = tm.root.max_pane_id();
        let next = if tm.next_id > maxid {
            tm.next_id as int
        } else {
            maxid + 1
        };
        if next <= usize::MAX && next - ids.len() <= usize::MAX - 10 {
            let r = repair(tm).unwrap();
            assert(r.root.pane_ids() == ids);
            let k = ids.index_of(ids[0]);
            assert(ids.contains(ids[0]));
            if ids.contains(tm.focused_pane_id as int) {
                assert(r.root.contains_pane(r.focused_pane_id as int));
            } else {
                assert(r.focused_pane_id as int == ids[0]);
                assert(r.root.contains_pane(r.focused_pane_id as int));
            }
            assert forall|i: int| 0 <= i < ids.len() implies 1 <= #[trigger] ids[i]
                < r.next_id by {
                assert(ids[i] <= maxid);
            }
        }
    }
}

/// A well-formed manager passes validation untouched.
pub proof fn lemma_repair_identity(tm: TilingManager)
    requires
        tm.wf(),
    ensures
        repair(tm) == Some(tm),
{
    let ids = tm.root.pane_ids();
    lemma_clamp_ratios(tm.root);
    crate::layout::lemma_max_pane_id(tm.root);
    let maxid = tm.root.max_pane_id();
    assert(ids.contains(maxid));
    let k = choose|k: int| 0 <= k < ids.len() && ids[k] == maxid;
    assert(1 <= ids[k] < tm.next_id);
    assert(tm.next_id > maxid);
    assert(repair(tm) matches Some(r) && r == tm);
}

/// Writes the decimal digits of `n`.
fn write_num(out: &mut Vec<u8>, n: usize)
    ensures
        final(out)@ == old(out)@ + dec_digits(n as nat),
    decreases n,
{
    if n < 10 {
        out.push(48 + n as u8);
        proof {
            assert(out@ =~= old(out)@ + dec_digits(n as nat));
        }
    } else {
        write_num(out, n / 10);
        out.push(48 + (n % 10) as u8);
        proof {
            assert(out@ =~= old(out)@ + dec_digits(n as nat));
        }
    }
}

/// The executable view tag.
fn view_byte(v: ViewType) -> (r: u8)
    ensures
        r == view_code(v),
{
    match v {
        ViewType::Empty => 101,
        ViewType::Dashboard => 100,
        ViewType::Polar => 112,
        ViewType::Isometric => 105,
        ViewType::Spectrogram => 115,
        ViewType::Phase => 104,
        ViewType::Camera => 99,
        ViewType::RawScatter => 114,
    }
}

/// The view named by a tag byte.
fn byte_view(b: u8) -> (r: Option<ViewType>)
    ensures
        r == view_of_code(b),
{
    if b == 101 {
        Some(ViewType::Empty)
    } else if b == 100 {
        Some(ViewType::Dashboard)
    } else if b == 112 {
        Some(ViewType::Polar)
    } else if b == 105 {
        Some(ViewType::Isometric)
    } else if b == 115 {
        Some(ViewType::Spectrogram)
    } else if b == 104 {
        Some(ViewType::Phase)
    } else if b == 99 {
        Some(ViewType::Camera)
    } else if b == 114 {
        Some(ViewType::RawScatter)
    } else {
        None
    }
}

/// The executable axis tag.
fn dir_byte(d: SplitDirection) -> (r: u8)
    ensures
        r == dir_code(d),
{
    match d {
        SplitDirection::Horizontal => 104,
        SplitDirection::Vertical => 118,
    }
}

/// The axis named by a tag byte.
fn byte_dir(b: u8) -> (r: Option<SplitDirection>)
    ensures
        r == dir_of_code(b),
{
    if b == 104 {
        Some(SplitDirection::Horizontal)
    } else if b == 118 {
        Some(SplitDirection::Vertical)
    } else {
        None
    }
}

/// Appends the encoding of a tree node.
fn write_node(out: &mut Vec<u8>, node: &LayoutNode)
    ensures
        final(out)@ == old(out)@ + enc_node(*node),
    decreases *node,
{
    match node {
        LayoutNode::Pane { id, view } => {
            out.push(112);
            out.push(32);
            write_num(out, *id);
            out.push(32);
            let vb = view_byte(*view);
            out.push(vb);
            proof {
                assert(out@ =~= old(out)@ + enc_node(*node));
            }
        },
        LayoutNode::Split { direction, ratio, left, right } => {
            out.push(40);
            let db = dir_byte(*direction);
            out.push(db);
            out.push(32);
            write_num(out, *ratio as usize);
            out.push(32);
            write_node(out, &**left);
            out.push(32);
            write_node(out, &**right);
            out.push(41);
            proof {
                assert(dec_digits((*ratio as usize) as nat) == dec_digits(*ratio as nat));
                assert(out@ =~= old(out)@ + enc_node(*node));
            }
        },
    }
}

/// Reads a tree node at position `i`.
fn parse_node(data: &Vec<u8>, i: usize) -> (r: Option<(LayoutNode, usize)>)
    requires
        i <= data@.len(),
    ensures
        (match r {
            Some(pair) => parse_node_at(data@, i as int) == Some((pair.0, pair.1 as int)) && i
                < pair.1 <= data@.len(),
            None => parse_node_at(data@, i as int) is None,
        }),
    decreases data@.len() - i,
{
    if i >= data.len() {
        return None;
    }
    let tag = data[i];
    if tag == 112 {
        if i + 1 < data.len() && data[i + 1] == 32 {
            match parse_num(data, i + 2) {
                Some((v, j)) => {
                    if v >= 1 && j < data.len() && j + 1 < data.len() && data[j] == 32 {
                        match byte_view(data[j + 1]) {
                            Some(view) => Some((LayoutNode::Pane { id: v, view }, j + 2)),
                            None => None,
                        }
                    } else {
                        None
                    }
                },
                None => None,
            }
        } else {
            None
        }
    } else if tag == 40 {
        if i + 1 < data.len() && i + 2 < data.len() && data[i + 2] == 32 {
            match byte_dir(data[i + 1]) {
                Some(direction) => {
                    match parse_num(data, i + 3) {
                        Some((rv, j)) => {
                            if rv <= u16::MAX as usize && j < data.len() && data[j] == 32 {
                                match parse_node(data, j + 1) {
                                    Some((left, k)) => {
                                        if k < data.len() && data[k] == 32 {
                                            match parse_node(data, k + 1) {
                                                Some((right, m)) => {
                                                    if m < data.len() && data[m] == 41 {
                                                        Some(
                                                            (
                                                                LayoutNode::Split {
                                                                    direction,
                                                                    ratio: rv as u16,
                                                                    left: Box::new(left),
                                                                    right: Box::new(right),
                                                                },
                                                                m + 1,
                                                            ),
                                                        )
                                                    } else {
                                                        None
                                                    }
                                                },
                                                None => None,
                                            }
                                        } else {
                                            None
                                        }
                                    },
                                    None => None,
                                }
                            } else {
                                None
                            }
                        },
                        None => None,
                    }
                },
                None => None,
            }
        } else {
            None
        }
    } else {
        None
    }
}

/// The executable theme tag.
fn theme_byte(t: Option<ThemeType>) -> (r: u8)
    ensures
        r == theme_code(t),
{
    match t {
        None => 45,
        Some(ThemeType::Dark) => 100,
        Some(ThemeType::Light) => 108,
        Some(ThemeType::Nordic) => 110,
        Some(ThemeType::Gruvbox) => 103,
        Some(ThemeType::Catppuccin) => 99,
    }
}

/// The theme preference named by a tag byte.
fn byte_theme(b: u8) -> (r: Option<Option<ThemeType>>)
    ensures
        r == theme_of_code(b),
{
    if b == 45 {
        Some(None)
    } else if b == 100 {
        Some(Some(ThemeType::Dark))
    } else if b == 108 {
        Some(Some(ThemeType::Light))
    } else if b == 110 {
        Some(Some(ThemeType::Nordic))
    } else if b == 103 {
        Some(Some(ThemeType::Gruvbox))
    } else if b == 99 {
        Some(Some(ThemeType::Catppuccin))
    } else {
        None
    }
}

/// Writes a manager to its byte encoding.
pub fn serialize(tm: &TilingManager) -> (r: Vec<u8>)
    ensures
        r@ == enc_manager(*tm),
{
    let mut out: Vec<u8> = Vec::new();
    out.push(102);
    out.push(32);
    write_num(&mut out, tm.focused_pane_id);
    out.push(10);
    out.push(110);
    out.push(32);
    write_num(&mut out, tm.next_id);
    out.push(10);
    out.push(100);
    out.push(32);
    if tm.is_default {
        out.push(49);
    } else {
        out.push(48);
    }
    out.push(10);
    out.push(116);
    out.push(32);
    let tb = theme_byte(tm.theme_variant);
    out.push(tb);
    out.push(10);
    write_node(&mut out, &tm.root);
    out.push(10);
    proof {
        assert(out@ =~= enc_manager(*tm));
    }
    out
}

/// Forces every split ratio into [10, 90].
fn clamp_node(node: LayoutNode) -> (r: LayoutNode)
    ensures
        r == clamp_ratios(node),
    decreases node,
{
    match node {
        LayoutNode::Pane { id, view } => LayoutNode::Pane { id, view },
        LayoutNode::Split { direction, ratio, left, right } => {
            let nr: u16 = if ratio < 10 {
                10
            } else if ratio > 90 {
                90
            } else {
                ratio
            };
            let l = clamp_node(*left);
            let r = clamp_node(*right);
            LayoutNode::Split { direction, ratio: nr, left: Box::new(l), right: Box::new(r) }
        },
    }
}

/// Appends every pane id in traversal order.
fn push_ids(node: &LayoutNode, out: &mut Vec<usize>)
    ensures
        final(out)@.len() == old(out)@.len() + node.pane_count(),
        forall|i: int| 0 <= i < old(out)@.len() ==> final(out)@[i] == old(out)@[i],
        forall|i: int|
            0 <= i < node.pane_count() ==> final(out)@[old(out)@.len() + i] as int
                == node.pane_ids()[i],
    decreases *node,
{
    match node {
        LayoutNode::Pane { id, .. } => {
            out.push(*id);
            proof {
                assert(node.pane_ids()[0] == *id as int);
            }
        },
        LayoutNode::Split { left, right, .. } => {
            proof {
                assert(node.pane_ids() == left.pane_ids() + right.pane_ids());
            }
            push_ids(&**left, out);
            push_ids(&**right, out);
        },
    }
}

/// Whether two positions of the list carry the same id.
fn ids_have_duplicate(v: &Vec<usize>) -> (r: bool)
    ensures
        r <==> exists|a: int, b: int| 0 <= a < b < v@.len() && v@[a] == v@[b],
{
    let mut i: usize = 0;
    while i < v.len()
        invariant
            i <= v@.len(),
            forall|a: int, b: int| 0 <= a < b < v@.len() && a < i ==> v@[a] != v@[b],
        decreases v@.len() - i,
    {
        let mut j: usize = i + 1;
        while j < v.len()
            invariant
                i < j <= v@.len() || (i as int) + 1 == j,
                i < v@.len(),
                forall|b: int| i < b < j ==> v@[i as int] != v@[b],
            decreases v@.len() - j,
        {
            if v[i] == v[j] {
                return true;
            }
            j += 1;
        }
        i += 1;
    }
    false
}

/// Validates and repairs a freshly parsed manager.
fn repair_manager(raw: TilingManager) -> (r: Option<TilingManager>)
    ensures
        r == repair(raw),
        (r matches Some(t) ==> t.wf()),
{
    proof {
        lemma_repair_wf(raw);
    }
    let mut ids: Vec<usize> = Vec::new();
    push_ids(&raw.root, &mut ids);
    proof {
        crate::layout::lemma_pane_ids_nonempty(raw.root);
    }
    if ids_have_duplicate(&ids) {
        proof {
            let (a, b) = choose|a: int, b: int| 0 <= a < b < ids@.len() && ids@[a] == ids@[b];
            assert(raw.root.pane_ids()[a] == raw.root.pane_ids()[b]);
        }
        return None;
    }
    proof {
        let p_ids = raw.root.pane_ids();
        assert forall|a: int, b: int|
            0 <= a < p_ids.len() && 0 <= b < p_ids.len() && a != b implies p_ids[a]
            != p_ids[b] by {
            if a < b {
                assert(ids@[a] != ids@[b]);
            } else {
                assert(ids@[b] != ids@[a]);
            }
        }
        assert(p_ids.no_duplicates());
    }
    let mut k: usize = 0;
    let mut all_pos: bool = true;
    while k < ids.len()
        invariant
            k <= ids@.len(),
            all_pos <==> (forall|j: int| 0 <= j < k ==> #[trigger] ids@[j] >= 1),
        decreases ids@.len() - k,
    {
        if ids[k] == 0 {
            all_pos = false;
        }
        k += 1;
    }
    if !all_pos {
        proof {
            let j = choose|j: int| 0 <= j < ids@.len() && !(ids@[j] >= 1);
            assert(raw.root.pane_ids()[j] < 1);
            assert(!ids_positive(raw.root));
        }
        return None;
    }
    proof {
        assert(ids_positive(raw.root)) by {
            assert forall|j: int|
                0 <= j < raw.root.pane_ids().len() implies #[trigger] raw.root.pane_ids()[j]
                >= 1 by {
                assert(ids@[j] >= 1);
            }
        }
    }
    let focused = raw.focused_pane_id;
    let next_raw = raw.next_id;
    let is_default = raw.is_default;
    let theme_variant = raw.theme_variant;
    let root2 = clamp_node(raw.root);
    proof {
        lemma_clamp_ratios(raw.root);
    }
    let focus: usize = if crate::layout::node_contains(&root2, focused) {
        focused
    } else {
        crate::layout::first_id_node(&root2)
    };
    let maxid = crate::layout::max_id_node(&root2);
    if next_raw <= maxid && maxid == usize::MAX {
        return None;
    }
    let next: usize = if next_raw > maxid {
        next_raw
    } else {
        maxid + 1
    };
    proof {
        crate::layout::lemma_max_pane_id(raw.root);
        crate::layout::lemma_pane_count_bounded(raw.root, maxid as int + 1);
    }
    if next - ids.len() > usize::MAX - 10 {
        return None;
    }
    Some(TilingManager { root: root2, focused_pane_id: focus, next_id: next, is_default, theme_variant })
}

/// Reads a manager back from its byte encoding, validating and repairing
/// as `repair` describes; `None` exactly on input that had to be rejected.
pub fn deserialize(data: &Vec<u8>) -> (r: Option<TilingManager>)
    ensures
        r == spec_deserialize(data@),
        (r matches Some(t) ==> t.wf()),
{
    if data.len() < 2 || data[0] != 102 || data[1] != 32 {
        return None;
    }
    let (f, a) = match parse_num(data, 2) {
        Some(p) => p,
        None => {
            return None;
        },
    };
    if !(a < data.len() && a + 1 < data.len() && a + 2 < data.len() && data[a] == 10 && data[a
        + 1] == 110 && data[a + 2] == 32) {
        return None;
    }
    let (n, b) = match parse_num(data, a + 3) {
        Some(p) => p,
        None => {
            return None;
        },
    };
    if !(b < data.len() && b + 1 < data.len() && b + 2 < data.len() && b + 3 < data.len() && b
        + 4 < data.len() && b + 5 < data.len() && b + 6 < data.len() && b + 7 < data.len() && b
        + 8 < data.len() && data[b] == 10 && data[b + 1] == 100 && data[b + 2] == 32 && (data[b
        + 3] == 48 || data[b + 3] == 49) && data[b + 4] == 10 && data[b + 5] == 116 && data[b
        + 6] == 32 && data[b + 8] == 10) {
        return None;
    }
    let tv = match byte_theme(data[b + 7]) {
        Some(t) => t,
        None => {
            return None;
        },
    };
    let (root, m) = match parse_node(data, b + 9) {
        Some(p) => p,
        None => {
            return None;
        },
    };
    if !(m < data.len() && m + 1 == data.len() && data[m] == 10) {
        return None;
    }
    let raw = TilingManager {
        root,
        focused_pane_id: f,
        next_id: n,
        is_default: data[b + 3] == 49,
        theme_variant: tv,
    };
    proof {
        assert(parse_manager(data@) == Some(raw));
    }
    repair_manager(raw)
}

/// Saving and loading are faithful: a well-formed manager survives a trip
/// through its byte encoding unchanged, so re-serialising what was loaded
/// reproduces the original bytes exactly.
pub proof fn lemma_serialize_round_trip(tm: TilingManager)
    requires
        tm.wf(),
    ensures
        spec_deserialize(enc_manager(tm)) == Some(tm),
        spec_deserialize(enc_manager(tm)) matches Some(u) && enc_manager(u) == enc_manager(tm),
{
    lemma_parse_manager_enc(tm);
    lemma_repair_identity(tm);
}

/// Parsing what `enc_manager` wrote yields the same manager.
#[verifier::rlimit(60)]
pub proof fn lemma_parse_manager_enc(tm: TilingManager)
    requires
        tm.wf(),
    ensures
        parse_manager(enc_manager(tm)) == Some(tm),
{
    let s = enc_manager(tm);
    let df = dec_digits(tm.focused_pane_id as nat);
    let dn = dec_digits(tm.next_id as nat);
    let en = enc_node(tm.root);
    let flag = if tm.is_default {
        49u8
    } else {
        48u8
    };
    let p1 = seq![102u8, 32u8];
    let p2 = p1 + df;
    let p3 = p2 + seq![10u8];
    let p4 = p3 + seq![110u8, 32u8];
    let p5 = p4 + dn;
    let p6 = p5 + seq![10u8];
    let p7 = p6 + seq![100u8, 32u8, flag, 10u8];
    let p8 = p7 + seq![116u8, 32u8, theme_code(tm.theme_variant), 10u8];
    let p9 = p8 + en;
    assert(s == p9 + seq![10u8]);
    lemma_dec_digits_are_digits(tm.focused_pane_id as nat);
    lemma_dec_digits_are_digits(tm.next_id as nat);
    let a = 2 + df.len() as int;
    let b = a + 3 + dn.len() as int;
    let m = b + 9 + en.len() as int;
    assert(s.len() == m + 1);
    assert(s[0] == 102);
    assert(s[1] == 32);
    assert forall|k: int| 0 <= k < df.len() implies s[2 + k] == df[k] by {
        assert(p2[2 + k] == df[k]);
    }
    assert(s[a] == 10);
    assert(s[a + 1] == 110);
    assert(s[a + 2] == 32);
    assert forall|k: int| 0 <= k < dn.len() implies s[a + 3 + k] == dn[k] by {
        assert(p5[a + 3 + k] == dn[k]);
    }
    assert(s[b] == 10);
    assert(s[b + 1] == 100);
    assert(s[b + 2] == 32);
    assert(s[b + 3] == flag);
    assert(s[b + 4] == 10);
    assert(s[b + 5] == 116);
    assert(s[b + 6] == 32);
    assert(s[b + 7] == theme_code(tm.theme_variant));
    assert(s[b + 8] == 10);
    assert forall|k: int| 0 <= k < en.len() implies s[b + 9 + k] == en[k] by {
        assert(p9[b + 9 + k] == en[k]);
    }
    assert(s[m] == 10);

    assert(s.subrange(2, 2 + df.len() as int) =~= df);
    assert(!is_digit(s[a]));
    lemma_parse_num_at_enc(s, 2, tm.focused_pane_id as nat);
    assert(parse_num_at(s, 2) == Some((tm.focused_pane_id as int, a)));

    assert(s.subrange(a + 3, a + 3 + dn.len() as int) =~= dn);
    assert(!is_digit(s[b]));
    lemma_parse_num_at_enc(s, a + 3, tm.next_id as nat);
    assert(parse_num_at(s, a + 3) == Some((tm.next_id as int, b)));

    lemma_theme_code_inverse(tm.theme_variant);

    assert(s.subrange(b + 9, b + 9 + en.len() as int) =~= en);
    assert(ids_positive(tm.root));
    lemma_parse_node_enc(tm.root, s, b + 9);
    assert(parse_node_at(s, b + 9) == Some((tm.root, m)));

    assert((if tm.is_default {
        49u8
    } else {
        48u8
    }) == flag);
    assert(parse_manager(s) == Some(tm));
}

} // verus!
