//! The pattern parser: pattern text to postfix operator sequence.
//!
//! Grammar, by parsing precedence (tightest first): grouping `(...)`,
//! repetition `*`, implicit concatenation, alternation `|`. One function per
//! precedence level, each returning the postfix fragment for its level plus
//! the position of the unconsumed remainder. A `\c` token is the escaped
//! literal `c`, `.` is the any-character wildcard, any other character is a
//! literal. An empty pattern, a group with nothing before its closing
//! parenthesis, a dangling escape, or trailing unconsumed input is a parse
//! failure, never a crash.

use vstd::prelude::*;
use vstd::string::StrSliceExecFns;

verus! {

/// One operator of the postfix sequence. Parenthesis tokens classify pattern
/// characters during parsing and never appear in the parser's output.
#[derive(Clone, Copy, Debug, PartialEq, Eq, Structural)]
pub enum ThompsonOp {
    LeftParen,
    RightParen,
    Asterisk,
    Or,
    Concat,
    All,
    Primary(char),
}

/// How a pattern character is classified.
pub open spec fn spec_op_of(c: char) -> ThompsonOp {
    if c == '(' {
        ThompsonOp::LeftParen
    } else if c == ')' {
        ThompsonOp::RightParen
    } else if c == '*' {
        ThompsonOp::Asterisk
    } else if c == '|' {
        ThompsonOp::Or
    } else if c == '.' {
        ThompsonOp::All
    } else {
        ThompsonOp::Primary(c)
    }
}

fn to_thompson_op(c: &char) -> (r: ThompsonOp)
    ensures
        r == spec_op_of(*c),
{
    if *c == '(' {
        ThompsonOp::LeftParen
    } else if *c == ')' {
        ThompsonOp::RightParen
    } else if *c == '*' {
        ThompsonOp::Asterisk
    } else if *c == '|' {
        ThompsonOp::Or
    } else if *c == '.' {
        ThompsonOp::All
    } else {
        ThompsonOp::Primary(*c)
    }
}

/// Net effect of one operator on the fragment stack of the NFA builder.
pub open spec fn op_effect(op: ThompsonOp) -> int {
    match op {
        ThompsonOp::Primary(_) => 1,
        ThompsonOp::All => 1,
        ThompsonOp::Asterisk => 0,
        ThompsonOp::Or => -1,
        ThompsonOp::Concat => -1,
        ThompsonOp::LeftParen => 0,
        ThompsonOp::RightParen => 0,
    }
}

/// Net stack effect of a whole operator sequence.
pub open spec fn seq_effect(ops: Seq<ThompsonOp>) -> int
    decreases ops.len(),
{
    if ops.len() == 0 {
        0
    } else {
        seq_effect(ops.drop_last()) + op_effect(ops.last())
    }
}

/// The sequence is the balanced postfix form of a single expression: its net
/// stack effect is one, and no nonempty prefix ever leaves the stack empty.
/// Folding such a sequence over a fragment stack never underflows and ends
/// with exactly one fragment.
pub open spec fn is_single(ops: Seq<ThompsonOp>) -> bool {
    &&& ops.len() >= 1
    &&& seq_effect(ops) == 1
    &&& forall|k: int| 1 <= k < ops.len() ==> seq_effect(#[trigger] ops.take(k)) >= 1
}

pub proof fn lemma_seq_effect_add(a: Seq<ThompsonOp>, b: Seq<ThompsonOp>)
    ensures
        seq_effect(a + b) == seq_effect(a) + seq_effect(b),
    decreases b.len(),
{
    if b.len() == 0 {
        assert(a + b =~= a);
    } else {
        assert((a + b).drop_last() =~= a + b.drop_last());
        lemma_seq_effect_add(a, b.drop_last());
    }
}

pub proof fn lemma_single_one(op: ThompsonOp)
    requires
        op_effect(op) == 1,
    ensures
        is_single(seq![op]),
{
    assert(seq![op].drop_last() =~= Seq::<ThompsonOp>::empty());
    assert(seq_effect(Seq::<ThompsonOp>::empty()) == 0);
    assert(seq![op].last() == op);
    assert(seq_effect(seq![op]) == 1);
}

pub proof fn lemma_single_append_zero(a: Seq<ThompsonOp>, op: ThompsonOp)
    requires
        is_single(a),
        op_effect(op) == 0,
    ensures
        is_single(a.push(op)),
{
    let r = a.push(op);
    assert(r.drop_last() =~= a);
    assert forall|k: int| 1 <= k < r.len() implies seq_effect(#[trigger] r.take(k)) >= 1 by {
        assert(r.take(k) =~= a.take(k));
        if k == a.len() {
            assert(a.take(k) =~= a);
        }
    }
}

pub proof fn lemma_single_binop(a: Seq<ThompsonOp>, b: Seq<ThompsonOp>, op: ThompsonOp)
    requires
        is_single(a),
        is_single(b),
        op_effect(op) == -1,
    ensures
        is_single(a + b + seq![op]),
{
    let r = a + b + seq![op];
    assert(seq![op].drop_last() =~= Seq::<ThompsonOp>::empty());
    assert(seq_effect(Seq::<ThompsonOp>::empty()) == 0);
    assert(seq![op].last() == op);
    assert(seq_effect(seq![op]) == -1);
    lemma_seq_effect_add(a, b);
    lemma_seq_effect_add(a + b, seq![op]);
    assert(seq_effect(r) == 1);
    assert forall|k: int| 1 <= k < r.len() implies seq_effect(#[trigger] r.take(k)) >= 1 by {
        if k <= a.len() {
            assert(r.take(k) =~= a.take(k));
            if k == a.len() {
                assert(a.take(k) =~= a);
            }
        } else {
            let j = k - a.len();
            assert(r.take(k) =~= a + b.take(j));
            lemma_seq_effect_add(a, b.take(j));
            if j == b.len() {
                assert(b.take(j) =~= b);
            }
        }
    }
}

/// Parses one character-class token at `pos`: an escaped literal, the
/// wildcard, or a plain literal. An operator character or the end of the
/// pattern is a parse failure.
pub open spec fn sp_char_class(s: Seq<char>, pos: int) -> Option<(Seq<ThompsonOp>, int)>
    decreases s.len() - pos, 0int,
{
    if pos < 0 || pos >= s.len() {
        None
    } else {
        let c = s[pos];
        if c == '\\' {
            if pos + 1 < s.len() {
                Some((seq![ThompsonOp::Primary(s[pos + 1])], pos + 2))
            } else {
                None
            }
        } else if c == '.' {
            Some((seq![ThompsonOp::All], pos + 1))
        } else if c == '(' || c == ')' || c == '*' || c == '|' {
            None
        } else {
            Some((seq![ThompsonOp::Primary(c)], pos + 1))
        }
    }
}

/// Parses a primary at `pos`: a parenthesized alternation-level expression,
/// or a character-class token.
pub open spec fn sp_primary(s: Seq<char>, pos: int) -> Option<(Seq<ThompsonOp>, int)>
    decreases s.len() - pos, 5int,
{
    if 0 <= pos < s.len() && s[pos] == '(' {
        match sp_or(s, pos + 1) {
            None => None,
            Some((ops, p2)) => {
                if p2 < s.len() && s[p2] == ')' {
                    Some((ops, p2 + 1))
                } else {
                    None
                }
            },
        }
    } else {
        sp_char_class(s, pos)
    }
}

/// Parses one repetition unit at `pos`: a primary, optionally followed by
/// the repetition operator.
pub open spec fn sp_asterisk(s: Seq<char>, pos: int) -> Option<(Seq<ThompsonOp>, int)>
    decreases s.len() - pos, 6int,
{
    match sp_primary(s, pos) {
        None => None,
        Some((ops, p2)) => {
            if p2 < s.len() && s[p2] == '*' {
                Some((ops.push(ThompsonOp::Asterisk), p2 + 1))
            } else {
                Some((ops, p2))
            }
        },
    }
}

/// Continues a concatenation whose left part is `ops`: while the remainder
/// starts another unit (not an alternation bar, a closing parenthesis, or
/// the end of the pattern), parses it and appends a concatenation marker.
pub open spec fn sp_concat_rest(s: Seq<char>, pos: int, ops: Seq<ThompsonOp>) -> Option<(Seq<
    ThompsonOp,
>, int)>
    decreases s.len() - pos, 8int,
{
    if pos >= s.len() || s[pos] == '|' || s[pos] == ')' {
        Some((ops, pos))
    } else {
        match sp_asterisk(s, pos) {
            None => None,
            Some((ops2, p2)) => {
                if pos < p2 <= s.len() {
                    sp_concat_rest(s, p2, ops + ops2 + seq![ThompsonOp::Concat])
                } else {
                    None
                }
            },
        }
    }
}

/// Parses a concatenation-level expression at `pos`: one repetition unit,
/// then any further units joined by implicit concatenation.
pub open spec fn sp_concat(s: Seq<char>, pos: int) -> Option<(Seq<ThompsonOp>, int)>
    decreases s.len() - pos, 7int,
{
    match sp_asterisk(s, pos) {
        None => None,
        Some((ops, p2)) => {
            if pos < p2 <= s.len() {
                sp_concat_rest(s, p2, ops)
            } else {
                None
            }
        },
    }
}

/// Parses an alternation-level expression at `pos`: a concatenation,
/// optionally followed by `|` and the right-hand alternation.
pub open spec fn sp_or(s: Seq<char>, pos: int) -> Option<(Seq<ThompsonOp>, int)>
    decreases s.len() - pos, 9int,
{
    match sp_concat(s, pos) {
        None => None,
        Some((ops, p2)) => {
            if p2 < s.len() && s[p2] == '|' {
                if pos <= p2 {
                    match sp_or(s, p2 + 1) {
                        None => None,
                        Some((ops3, p3)) => Some((ops + ops3 + seq![ThompsonOp::Or], p3)),
                    }
                } else {
                    None
                }
            } else {
                Some((ops, p2))
            }
        },
    }
}

/// The whole-pattern parse: a full alternation-level expression that must
/// consume the entire pattern.
pub open spec fn spec_parse(s: Seq<char>) -> Option<Seq<ThompsonOp>> {
    match sp_or(s, 0) {
        None => None,
        Some((ops, p)) => {
            if p == s.len() {
                Some(ops)
            } else {
                None
            }
        },
    }
}

/// The failure report of a missing or misplaced primary.
pub open spec fn msg_expected_primary() -> Seq<char> {
    "expected primary"@
}

/// The failure report of an escape with nothing following it.
pub open spec fn msg_dangling_escape() -> Seq<char> {
    "dangling escape"@
}

/// The failure report of an unmatched group or trailing unconsumed input.
pub open spec fn msg_unmatched_grouping() -> Seq<char> {
    "unmatched grouping"@
}

/// The message reported when the character-class token at `pos` cannot be
/// parsed: a dangling escape, or a missing primary.
pub open spec fn sp_char_class_err(s: Seq<char>, pos: int) -> Seq<char> {
    if 0 <= pos < s.len() && s[pos] == '\\' {
        msg_dangling_escape()
    } else {
        msg_expected_primary()
    }
}

/// The message reported when the primary at `pos` cannot be parsed: the
/// failure inside an open group, a group missing its closing parenthesis,
/// or the character-class failure.
pub open spec fn sp_primary_err(s: Seq<char>, pos: int) -> Seq<char>
    decreases s.len() - pos, 5int,
{
    if 0 <= pos < s.len() && s[pos] == '(' {
        match sp_or(s, pos + 1) {
            None => sp_or_err(s, pos + 1),
            Some(_) => msg_unmatched_grouping(),
        }
    } else {
        sp_char_class_err(s, pos)
    }
}

/// The message reported when the repetition unit at `pos` cannot be parsed.
pub open spec fn sp_asterisk_err(s: Seq<char>, pos: int) -> Seq<char>
    decreases s.len() - pos, 6int,
{
    sp_primary_err(s, pos)
}

/// The message reported when continuing a concatenation at `pos` fails.
pub open spec fn sp_concat_rest_err(s: Seq<char>, pos: int) -> Seq<char>
    decreases s.len() - pos, 8int,
{
    if pos >= s.len() || s[pos] == '|' || s[pos] == ')' {
        msg_expected_primary()
    } else {
        match sp_asterisk(s, pos) {
            None => sp_asterisk_err(s, pos),
            Some((ops2, p2)) => {
                if pos < p2 <= s.len() {
                    sp_concat_rest_err(s, p2)
                } else {
                    msg_expected_primary()
                }
            },
        }
    }
}

/// The message reported when the concatenation at `pos` cannot be parsed.
pub open spec fn sp_concat_err(s: Seq<char>, pos: int) -> Seq<char>
    decreases s.len() - pos, 7int,
{
    match sp_asterisk(s, pos) {
        None => sp_asterisk_err(s, pos),
        Some((ops, p2)) => {
            if pos < p2 <= s.len() {
                sp_concat_rest_err(s, p2)
            } else {
                msg_expected_primary()
            }
        },
    }
}

/// The message reported when the alternation at `pos` cannot be parsed.
pub open spec fn sp_or_err(s: Seq<char>, pos: int) -> Seq<char>
    decreases s.len() - pos, 9int,
{
    match sp_concat(s, pos) {
        None => sp_concat_err(s, pos),
        Some((ops, p2)) => {
            if p2 < s.len() && s[p2] == '|' && pos <= p2 {
                sp_or_err(s, p2 + 1)
            } else {
                msg_expected_primary()
            }
        },
    }
}

/// The message reported when the whole-pattern parse fails: the failure of
/// the alternation-level parse, or trailing unconsumed input.
pub open spec fn spec_parse_err(s: Seq<char>) -> Seq<char> {
    match sp_or(s, 0) {
        None => sp_or_err(s, 0),
        Some(_) => msg_unmatched_grouping(),
    }
}

/// The pattern's characters, collected into a vector.
pub(crate) fn chars_of(s: &str) -> (r: Vec<char>)
    ensures
        r@ == s@,
{
    let n = s.unicode_len();
    let mut r: Vec<char> = Vec::new();
    let mut i: usize = 0;
    while i < n
        invariant
            i <= n,
            n == s@.len(),
            r@ =~= s@.take(i as int),
        decreases n - i,
    {
        r.push(s.get_char(i));
        i += 1;
        proof {
            assert(r@ =~= s@.take(i as int));
        }
    }
    proof {
        assert(s@.take(n as int) =~= s@);
    }
    r
}

fn to_postfix_char_class(p: &Vec<char>, pos: usize) -> (r: Result<
    (Vec<ThompsonOp>, usize),
    &'static str,
>)
    requires
        pos <= p@.len(),
    ensures
        match r {
            Ok(v) => sp_char_class(p@, pos as int) == Some((v.0@, v.1 as int)) && pos < v.1
                <= p@.len() && is_single(v.0@),
            Err(e) => sp_char_class(p@, pos as int) is None && e@ == sp_char_class_err(
                p@,
                pos as int,
            ),
        },
{
    if pos >= p.len() {
        return Err("expected primary");
    }
    let c = p[pos];
    if c == '\\' {
        if pos + 1 < p.len() {
            let mut ops: Vec<ThompsonOp> = Vec::new();
            ops.push(ThompsonOp::Primary(p[pos + 1]));
            proof {
                assert(ops@ =~= seq![ThompsonOp::Primary(p@[pos + 1])]);
                lemma_single_one(ThompsonOp::Primary(p@[pos + 1]));
            }
            Ok((ops, pos + 2))
        } else {
            Err("dangling escape")
        }
    } else {
        let op = to_thompson_op(&c);
        match op {
            ThompsonOp::All => {
                let mut ops: Vec<ThompsonOp> = Vec::new();
                ops.push(ThompsonOp::All);
                proof {
                    assert(ops@ =~= seq![ThompsonOp::All]);
                    lemma_single_one(ThompsonOp::All);
                }
                Ok((ops, pos + 1))
            },
            ThompsonOp::Primary(_) => {
                let mut ops: Vec<ThompsonOp> = Vec::new();
                ops.push(ThompsonOp::Primary(c));
                proof {
                    assert(ops@ =~= seq![ThompsonOp::Primary(p@[pos as int])]);
                    lemma_single_one(ThompsonOp::Primary(p@[pos as int]));
                }
                Ok((ops, pos + 1))
            },
            _ => Err("expected primary"),
        }
    }
}

fn to_postfix_primary(p: &Vec<char>, pos: usize) -> (r: Result<
    (Vec<ThompsonOp>, usize),
    &'static str,
>)
    requires
        pos <= p@.len(),
    ensures
        match r {
            Ok(v) => sp_primary(p@, pos as int) == Some((v.0@, v.1 as int)) && pos < v.1
                <= p@.len() && is_single(v.0@),
            Err(e) => sp_primary(p@, pos as int) is None && e@ == sp_primary_err(
                p@,
                pos as int,
            ),
        },
    decreases p@.len() - pos, 5int,
{
    if pos < p.len() && p[pos] == '(' {
        match to_postfix_or(p, pos + 1) {
            Err(e) => Err(e),
            Ok((ops, p2)) => {
                if p2 < p.len() && p[p2] == ')' {
                    Ok((ops, p2 + 1))
                } else {
                    Err("unmatched grouping")
                }
            },
        }
    } else {
        to_postfix_char_class(p, pos)
    }
}

fn to_postfix_asterisk(p: &Vec<char>, pos: usize) -> (r: Result<
    (Vec<ThompsonOp>, usize),
    &'static str,
>)
    requires
        pos <= p@.len(),
    ensures
        match r {
            Ok(v) => sp_asterisk(p@, pos as int) == Some((v.0@, v.1 as int)) && pos < v.1
                <= p@.len() && is_single(v.0@),
            Err(e) => sp_asterisk(p@, pos as int) is None && e@ == sp_asterisk_err(
                p@,
                pos as int,
            ),
        },
    decreases p@.len() - pos, 6int,
{
    match to_postfix_primary(p, pos) {
        Err(e) => Err(e),
        Ok((mut ops, p2)) => {
            if p2 < p.len() && p[p2] == '*' {
                let ghost before = ops@;
                ops.push(ThompsonOp::Asterisk);
                proof {
                    assert(before.push(ThompsonOp::Asterisk) =~= before + seq![
                        ThompsonOp::Asterisk,
                    ]);
                    lemma_single_append_zero(before, ThompsonOp::Asterisk);
                }
                Ok((ops, p2 + 1))
            } else {
                Ok((ops, p2))
            }
        },
    }
}

fn to_postfix_concat(p: &Vec<char>, pos: usize) -> (r: Result<
    (Vec<ThompsonOp>, usize),
    &'static str,
>)
    requires
        pos <= p@.len(),
    ensures
        match r {
            Ok(v) => sp_concat(p@, pos as int) == Some((v.0@, v.1 as int)) && pos < v.1
                <= p@.len() && is_single(v.0@),
            Err(e) => sp_concat(p@, pos as int) is None && e@ == sp_concat_err(
                p@,
                pos as int,
            ),
        },
    decreases p@.len() - pos, 7int,
{
    let (mut ops, mut cur) = match to_postfix_asterisk(p, pos) {
        Err(e) => {
            return Err(e);
        },
        Ok(v) => v,
    };
    while cur < p.len() && p[cur] != '|' && p[cur] != ')'
        invariant
            pos < cur <= p@.len(),
            is_single(ops@),
            sp_concat(p@, pos as int) == sp_concat_rest(p@, cur as int, ops@),
            sp_concat_err(p@, pos as int) == sp_concat_rest_err(p@, cur as int),
        decreases p@.len() - cur,
    {
        let ghost ops_pre = ops@;
        let ghost cur_pre = cur as int;
        match to_postfix_asterisk(p, cur) {
            Err(e) => {
                return Err(e);
            },
            Ok((mut ops2, p2)) => {
                let ghost ops2v = ops2@;
                ops.append(&mut ops2);
                ops.push(ThompsonOp::Concat);
                cur = p2;
                proof {
                    assert(ops@ =~= ops_pre + ops2v + seq![ThompsonOp::Concat]);
                    lemma_single_binop(ops_pre, ops2v, ThompsonOp::Concat);
                    assert(sp_concat_rest(p@, cur_pre, ops_pre) == sp_concat_rest(
                        p@,
                        cur as int,
                        ops@,
                    ));
                    assert(sp_concat_rest_err(p@, cur_pre) == sp_concat_rest_err(
                        p@,
                        cur as int,
                    ));
                }
            },
        }
    }
    Ok((ops, cur))
}

fn to_postfix_or(p: &Vec<char>, pos: usize) -> (r: Result<
    (Vec<ThompsonOp>, usize),
    &'static str,
>)
    requires
        pos <= p@.len(),
    ensures
        match r {
            Ok(v) => sp_or(p@, pos as int) == Some((v.0@, v.1 as int)) && pos < v.1 <= p@.len()
                && is_single(v.0@),
            Err(e) => sp_or(p@, pos as int) is None && e@ == sp_or_err(p@, pos as int),
        },
    decreases p@.len() - pos, 9int,
{
    match to_postfix_concat(p, pos) {
        Err(e) => Err(e),
        Ok((mut ops, p2)) => {
            if p2 < p.len() && p[p2] == '|' {
                match to_postfix_or(p, p2 + 1) {
                    Err(e) => Err(e),
                    Ok((mut ops3, p3)) => {
                        let ghost left = ops@;
                        let ghost right = ops3@;
                        ops.append(&mut ops3);
                        ops.push(ThompsonOp::Or);
                        proof {
                            assert(ops@ =~= left + right + seq![ThompsonOp::Or]);
                            lemma_single_binop(left, right, ThompsonOp::Or);
                        }
                        Ok((ops, p3))
                    },
                }
            } else {
                Ok((ops, p2))
            }
        },
    }
}

/// A character with no special meaning in a pattern.
pub open spec fn is_literal_char(c: char) -> bool {
    c != '(' && c != ')' && c != '*' && c != '|' && c != '.' && c != '\\'
}

/// The postfix operators for the characters of `s` from `pos` on, each
/// joined to what came before it by a concatenation marker.
pub open spec fn literal_tail(s: Seq<char>, pos: int) -> Seq<ThompsonOp>
    decreases s.len() - pos,
{
    if pos < 0 || pos >= s.len() {
        Seq::empty()
    } else {
        seq![ThompsonOp::Primary(s[pos])].push(ThompsonOp::Concat) + literal_tail(s, pos + 1)
    }
}

proof fn lemma_literal_rest(s: Seq<char>, pos: int, ops: Seq<ThompsonOp>)
    requires
        1 <= pos <= s.len(),
        forall|i: int| 0 <= i < s.len() ==> is_literal_char(#[trigger] s[i]),
    ensures
        sp_concat_rest(s, pos, ops) == Some((ops + literal_tail(s, pos), s.len() as int)),
    decreases s.len() - pos,
{
    if pos >= s.len() {
        assert(ops + literal_tail(s, pos) =~= ops);
    } else {
        assert(is_literal_char(s[pos]));
        assert(sp_char_class(s, pos) == Some(
            (seq![ThompsonOp::Primary(s[pos])], pos + 1),
        ));
        assert(sp_primary(s, pos) == Some((seq![ThompsonOp::Primary(s[pos])], pos + 1)));
        if pos + 1 < s.len() {
            assert(is_literal_char(s[pos + 1]));
        }
        assert(sp_asterisk(s, pos) == Some((seq![ThompsonOp::Primary(s[pos])], pos + 1)));
        lemma_literal_rest(
            s,
            pos + 1,
            ops + seq![ThompsonOp::Primary(s[pos])] + seq![ThompsonOp::Concat],
        );
        let pc = seq![ThompsonOp::Primary(s[pos])].push(ThompsonOp::Concat);
        let unfolded = pc + literal_tail(s, pos + 1);
        assert(literal_tail(s, pos) == unfolded);
        let grown = ops + seq![ThompsonOp::Primary(s[pos])] + seq![ThompsonOp::Concat]
            + literal_tail(s, pos + 1);
        assert(grown =~= ops + unfolded);
        assert(sp_concat_rest(s, pos, ops) == Some((grown, s.len() as int)));
    }
}

/// Law: a pattern of plain literal characters always parses, to the postfix
/// form that matches exactly that string: its first character, then each
/// further character joined by implicit concatenation.
pub proof fn lemma_literal_pattern_parses(s: Seq<char>)
    requires
        s.len() >= 1,
        forall|i: int| 0 <= i < s.len() ==> is_literal_char(#[trigger] s[i]),
    ensures
        spec_parse(s) == Some(seq![ThompsonOp::Primary(s[0])] + literal_tail(s, 1)),
{
    assert(is_literal_char(s[0]));
    assert(sp_char_class(s, 0) == Some((seq![ThompsonOp::Primary(s[0])], 1int)));
    assert(sp_primary(s, 0) == Some((seq![ThompsonOp::Primary(s[0])], 1int)));
    if 1 < s.len() {
        assert(is_literal_char(s[1]));
    }
    assert(sp_asterisk(s, 0) == Some((seq![ThompsonOp::Primary(s[0])], 1int)));
    lemma_literal_rest(s, 1, seq![ThompsonOp::Primary(s[0])]);
    assert(sp_concat(s, 0) == Some(
        (seq![ThompsonOp::Primary(s[0])] + literal_tail(s, 1), s.len() as int),
    ));
    assert(sp_or(s, 0) == Some(
        (seq![ThompsonOp::Primary(s[0])] + literal_tail(s, 1), s.len() as int),
    ));
}

/// Parses the whole pattern into its postfix operator sequence. Fails on an
/// empty pattern, a dangling escape, a misplaced operator, an unmatched
/// group, or trailing unconsumed input.
pub fn to_thompson_postfix(s: &str) -> (r: Result<Vec<ThompsonOp>, &'static str>)
    ensures
        r is Ok <==> spec_parse(s@) is Some,
        r matches Ok(v) ==> v@ == spec_parse(s@)->0 && is_single(v@),
        r matches Err(e) ==> e@ == spec_parse_err(s@),
{
    let p = chars_of(s);
    match to_postfix_or(&p, 0) {
        Err(e) => Err(e),
        Ok((ops, pos)) => {
            if pos == p.len() {
                Ok(ops)
            } else {
                Err("unmatched grouping")
            }
        },
    }
}

} // verus!

