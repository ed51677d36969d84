//! Labels of sequence scripts: checking that every jump target exists, and giving labels names
//! that are unique across scripts.
//!
//! A label starting with `-` is an anonymous label that a jump finds backwards, one starting
//! with `+` an anonymous label that a jump finds forwards; other labels are found anywhere in
//! the script.
use vstd::prelude::*;
use vstd::string::{StrSliceExecFns, StringExecFns};
use crate::sequence_ir::{InputLine, InputOp, strings_view};

verus! {

/// An error of reading the definition of an asset.
#[derive(Debug)]
pub enum SkyliteProcError {
    DataError(String),
    SyntaxError(String),
    OtherError(String),
}

/// The label that the operation `op` jumps to, if it jumps.
pub open spec fn target_of(op: InputOp) -> Option<Seq<char>> {
    match op {
        InputOp::Jump { label } => Some(label@),
        InputOp::Branch { label, .. } => Some(label@),
        InputOp::BranchCustom { label, .. } => Some(label@),
        _ => None,
    }
}

/// Whether `line` carries `label`.
pub open spec fn has_label(line: InputLine, label: Seq<char>) -> bool {
    strings_view(line.labels@).contains(label)
}

/// Whether a line from `lo` up to `hi` carries `label`.
pub open spec fn found_in(script: Seq<InputLine>, lo: int, hi: int, label: Seq<char>) -> bool {
    exists|j: int| lo <= j < hi && has_label(#[trigger] script[j], label)
}

/// Whether the target `label` of line `i` exists where a jump from there looks for it.
pub open spec fn target_found(script: Seq<InputLine>, i: int, label: Seq<char>) -> bool {
    if label[0] == '-' {
        found_in(script, 0, i, label)
    } else if label[0] == '+' {
        found_in(script, i + 1, script.len() as int, label)
    } else {
        found_in(script, 0, script.len() as int, label)
    }
}

/// Whether the jump target of line `i`, if any, is a label that exists.
pub open spec fn line_ok(script: Seq<InputLine>, i: int) -> bool {
    match target_of(script[i].input_op) {
        Some(l) => l.len() > 0 && target_found(script, i, l),
        None => true,
    }
}

/// Whether every jump target of `script` exists.
pub open spec fn labels_valid(script: Seq<InputLine>) -> bool {
    forall|i: int| 0 <= i < script.len() ==> line_ok(script, i)
}

/// Whether a jump target checked after all the ones before it were found is not empty.
pub open spec fn checked_targets_nonempty(script: Seq<InputLine>) -> bool {
    forall|i: int|
        0 <= i < script.len() && (forall|j: int| 0 <= j < i ==> line_ok(script, j)) ==> match target_of(
            #[trigger] script[i].input_op,
        ) {
            Some(l) => l.len() > 0,
            None => true,
        }
}

/// The message of the error for a jump target that does not exist.
pub open spec fn not_found_message(label: Seq<char>) -> Seq<char> {
    "Jump target "@ + label + " not found"@
}

fn labels_contain(labels: &Vec<String>, label: &String) -> (out: bool)
    ensures
        out == strings_view(labels@).contains(label@),
{
    let mut k: usize = 0;
    while k < labels.len()
        invariant
            k <= labels@.len(),
            forall|m: int| 0 <= m < k ==> labels@[m]@ != label@,
        decreases labels@.len() - k,
    {
        if labels[k] == *label {
            proof {
                assert(strings_view(labels@)[k as int] == label@);
            }
            return true;
        }
        k = k + 1;
    }
    proof {
        if strings_view(labels@).contains(label@) {
            let m = choose|m: int| 0 <= m < strings_view(labels@).len() && strings_view(labels@)[m] == label@;
            assert(labels@[m]@ == label@);
        }
    }
    false
}

fn target_label(op: &InputOp) -> (out: Option<&String>)
    ensures
        match target_of(*op) {
            Some(l) => out matches Some(s) && s@ == l,
            None => out is None,
        },
{
    match op {
        InputOp::Jump { label } => Some(label),
        InputOp::Branch { label, .. } => Some(label),
        InputOp::BranchCustom { label, .. } => Some(label),
        _ => None,
    }
}

/// Checks that every jump target of `script` exists: a label starting with `-` on an earlier
/// line, one starting with `+` on a later line, any other label on any line. Fails for the
/// first target that does not.
pub fn validate_labels(script: &[InputLine]) -> (out: Result<(), SkyliteProcError>)
    requires
        checked_targets_nonempty(script@),
    ensures
        out is Ok <==> labels_valid(script@),
        out matches Err(e) ==> exists|i: int|
            #![trigger script@[i]]
            0 <= i < script@.len() && !line_ok(script@, i) && (forall|j: int| 0 <= j < i ==> line_ok(script@, j))
                && (e matches SkyliteProcError::DataError(m) && m@ == not_found_message(
                target_of(script@[i].input_op)->0,
            )),
{
    let mut i: usize = 0;
    while i < script.len()
        invariant
            i <= script@.len(),
            checked_targets_nonempty(script@),
            forall|j: int| 0 <= j < i ==> line_ok(script@, j),
        decreases script@.len() - i,
    {
        let maybe_label = target_label(&script[i].input_op);
        if let Some(label) = maybe_label {
            proof {
                assert(label@.len() > 0);
            }
            let first_char = label.as_str().get_char(0);
            let (lo, hi): (usize, usize) = if first_char == '-' {
                (0, i)
            } else if first_char == '+' {
                (i + 1, script.len())
            } else {
                (0, script.len())
            };
            let mut found = false;
            let mut j: usize = lo;
            while j < hi && !found
                invariant
                    lo <= j <= hi <= script@.len(),
                    found ==> found_in(script@, lo as int, hi as int, label@),
                    !found ==> forall|m: int| lo <= m < j ==> !has_label(#[trigger] script@[m], label@),
                decreases hi - j,
            {
                if labels_contain(&script[j].labels, label) {
                    found = true;
                    proof {
                        assert(has_label(script@[j as int], label@));
                    }
                }
                j = j + 1;
            }
            if !found {
                let mut message = String::from_str("Jump target ");
                message.append(label.as_str());
                message.append(" not found");
                proof {
                    assert(!line_ok(script@, i as int));
                }
                return Err(SkyliteProcError::DataError(message));
            }
        }
        i = i + 1;
    }
    Ok(())
}


/// The digit `d` as a character.
pub open spec fn digit_char(d: nat) -> char {
    (48 + d) as char
}

/// The decimal digits of `n`.
pub open spec fn decimal(n: nat) -> Seq<char>
    decreases n,
{
    if n < 10 {
        seq![digit_char(n)]
    } else {
        decimal(n / 10).push(digit_char(n % 10))
    }
}

fn digit_str(d: usize) -> (out: &'static str)
    requires
        d < 10,
    ensures
        out@ == seq![digit_char(d as nat)],
{
    proof {
        reveal_strlit("0");
        reveal_strlit("1");
        reveal_strlit("2");
        reveal_strlit("3");
        reveal_strlit("4");
        reveal_strlit("5");
        reveal_strlit("6");
        reveal_strlit("7");
        reveal_strlit("8");
        reveal_strlit("9");
    }
    match d {
        0 => "0",
        1 => "1",
        2 => "2",
        3 => "3",
        4 => "4",
        5 => "5",
        6 => "6",
        7 => "7",
        8 => "8",
        _ => "9",
    }
}

/// `n` in decimal.
pub(crate) fn decimal_string(n: usize) -> (out: String)
    ensures
        out@ == decimal(n as nat),
    decreases n,
{
    let d = digit_str(n % 10);
    if n < 10 {
        String::from_str(d)
    } else {
        let mut s = decimal_string(n / 10);
        s.append(d);
        s
    }
}

/// How many of `labels` are `label`.
pub open spec fn count_in(labels: Seq<String>, label: Seq<char>) -> nat
    decreases labels.len(),
{
    if labels.len() == 0 {
        0
    } else {
        count_in(labels.drop_last(), label) + if labels.last()@ == label {
            1nat
        } else {
            0nat
        }
    }
}

/// How many times `label` stands on the lines before line `i`.
pub open spec fn count_before(script: Seq<InputLine>, i: nat, label: Seq<char>) -> nat
    decreases i,
{
    if i == 0 {
        0
    } else {
        count_before(script, (i - 1) as nat, label) + count_in(script[i - 1].labels@, label)
    }
}

/// How many labels the lines before line `i` carry.
pub open spec fn labels_before(script: Seq<InputLine>, i: nat) -> nat
    decreases i,
{
    if i == 0 {
        0
    } else {
        labels_before(script, (i - 1) as nat) + script[i - 1].labels@.len()
    }
}

/// The unique name of an anonymous label: the script, the direction (`b` or `f`), the label
/// and its number among the labels of that name.
pub open spec fn anonymous_name(name: Seq<char>, direction: char, label: Seq<char>, idx: nat) -> Seq<char> {
    name + seq!['-', direction, '-'] + label + seq!['-'] + decimal(idx)
}

/// The unique name of a named label.
pub open spec fn plain_name(name: Seq<char>, label: Seq<char>) -> Seq<char> {
    name + seq!['-', 'l', '-'] + label
}

/// The new name of label `p` of line `i`: anonymous labels are numbered in the order they
/// occur.
pub open spec fn renamed_label(script: Seq<InputLine>, name: Seq<char>, i: nat, p: nat) -> Seq<char> {
    let l = script[i as int].labels@[p as int]@;
    let c = count_before(script, i, l) + count_in(script[i as int].labels@.take(p as int), l);
    if l[0] == '-' {
        anonymous_name(name, 'b', l, c)
    } else if l[0] == '+' {
        anonymous_name(name, 'f', l, c)
    } else {
        plain_name(name, l)
    }
}

/// The new name of the jump target `l` of line `i`: a backward label is the last one of that
/// name before the line, a forward label the first one after it.
pub open spec fn renamed_target(script: Seq<InputLine>, name: Seq<char>, i: nat, l: Seq<char>) -> Seq<char> {
    if l[0] == '-' {
        anonymous_name(name, 'b', l, (count_before(script, i, l) - 1) as nat)
    } else if l[0] == '+' {
        anonymous_name(name, 'f', l, count_before(script, i + 1, l))
    } else {
        plain_name(name, l)
    }
}

/// Whether `b` is `a` with its jump target, if any, replaced by `t`.
pub open spec fn retargeted(a: InputOp, b: InputOp, t: Seq<char>) -> bool {
    match a {
        InputOp::Jump { .. } => b matches InputOp::Jump { label } && label@ == t,
        InputOp::Branch { condition, .. } => b matches InputOp::Branch { condition: c2, label } && c2 == condition
            && label@ == t,
        InputOp::BranchCustom { id, .. } => b matches InputOp::BranchCustom { id: id2, label } && id2 == id && label@
            == t,
        _ => b == a,
    }
}

/// Whether every label of `script` and every jump target is non-empty, and every backward
/// target stands on an earlier line.
pub open spec fn renamable(script: Seq<InputLine>) -> bool {
    &&& forall|i: int, p: int| 0 <= i < script.len() && 0 <= p < script[i].labels@.len() ==> (#[trigger] script[i].labels@[p])@.len() > 0
    &&& forall|i: int| 0 <= i < script.len() ==> match target_of(#[trigger] script[i].input_op) {
        Some(l) => l.len() > 0 && (l[0] == '-' ==> found_in(script, 0, i, l)),
        None => true,
    }
}

/// The number recorded for `label` in the list `map`: the latest entry for it.
pub open spec fn recorded(map: Seq<(String, usize)>, label: Seq<char>) -> Option<usize>
    decreases map.len(),
{
    if map.len() == 0 {
        None
    } else if map.last().0@ == label {
        Some(map.last().1)
    } else {
        recorded(map.drop_last(), label)
    }
}

fn lookup(map: &Vec<(String, usize)>, label: &String) -> (out: Option<usize>)
    ensures
        out == recorded(map@, label@),
{
    let mut k: usize = map.len();
    proof {
        assert(map@.take(k as int) =~= map@);
    }
    while k > 0
        invariant
            k <= map@.len(),
            recorded(map@, label@) == recorded(map@.take(k as int), label@),
        decreases k,
    {
        proof {
            assert(map@.take(k as int).drop_last() =~= map@.take(k - 1));
        }
        if map[k - 1].0 == *label {
            return Some(map[k - 1].1);
        }
        k = k - 1;
    }
    None
}

fn record(map: &mut Vec<(String, usize)>, label: &String, idx: usize)
    ensures
        forall|l: Seq<char>| #[trigger] recorded(final(map)@, l) == if l == label@ {
            Some(idx)
        } else {
            recorded(old(map)@, l)
        },
{
    map.push((label.clone(), idx));
    proof {
        assert(map@.drop_last() =~= old(map)@);
    }
}

/// `label` with `s` before it.
fn prefixed(name: &str, middle: &str, label: &String) -> (out: String)
    ensures
        out@ == name@ + middle@ + label@,
{
    let mut out = String::from_str(name);
    out.append(middle);
    out.append(label.as_str());
    out
}


proof fn lemma_count_in_le(labels: Seq<String>, l: Seq<char>)
    ensures
        count_in(labels, l) <= labels.len(),
    decreases labels.len(),
{
    if labels.len() > 0 {
        lemma_count_in_le(labels.drop_last(), l);
    }
}

proof fn lemma_count_in_pos(labels: Seq<String>, l: Seq<char>)
    requires
        strings_view(labels).contains(l),
    ensures
        count_in(labels, l) > 0,
    decreases labels.len(),
{
    if labels.last()@ != l {
        let m = choose|m: int| 0 <= m < strings_view(labels).len() && strings_view(labels)[m] == l;
        assert(strings_view(labels.drop_last())[m] == l);
        lemma_count_in_pos(labels.drop_last(), l);
    }
}

proof fn lemma_count_in_take(labels: Seq<String>, p: int, l: Seq<char>)
    requires
        0 <= p < labels.len(),
    ensures
        count_in(labels.take(p + 1), l) == count_in(labels.take(p), l) + if labels[p]@ == l {
            1nat
        } else {
            0nat
        },
{
    assert(labels.take(p + 1).drop_last() =~= labels.take(p));
}

proof fn lemma_count_before_le(script: Seq<InputLine>, i: nat, l: Seq<char>)
    ensures
        count_before(script, i, l) <= labels_before(script, i),
    decreases i,
{
    if i > 0 {
        lemma_count_before_le(script, (i - 1) as nat, l);
        lemma_count_in_le(script[i - 1].labels@, l);
    }
}

proof fn lemma_count_before_monotone(script: Seq<InputLine>, a: nat, b: nat, l: Seq<char>)
    requires
        a <= b,
    ensures
        count_before(script, a, l) <= count_before(script, b, l),
        labels_before(script, a) <= labels_before(script, b),
    decreases b,
{
    if a < b {
        lemma_count_before_monotone(script, a, (b - 1) as nat, l);
    }
}

/// A label that stands on a line before line `i` was counted there.
proof fn lemma_found_counted(script: Seq<InputLine>, i: nat, l: Seq<char>)
    requires
        i <= script.len(),
        found_in(script, 0, i as int, l),
    ensures
        count_before(script, i, l) > 0,
{
    let j = choose|j: int| 0 <= j < i && has_label(#[trigger] script[j], l);
    lemma_count_in_pos(script[j].labels@, l);
    lemma_count_before_monotone(script, (j + 1) as nat, i, l);
}

/// Whether `map` records, for each backward label, the number of the latest one counted so
/// far, and for each forward label the number the next one will get, when `counted` gives how
/// many of each were counted.
pub open spec fn map_matches(map: Seq<(String, usize)>, counted: spec_fn(Seq<char>) -> nat) -> bool {
    &&& forall|l: Seq<char>|
        l.len() > 0 && l[0] == '-' ==> #[trigger] recorded(map, l) == if counted(l) > 0 {
            Some((counted(l) - 1) as usize)
        } else {
            None::<usize>
        }
    &&& forall|l: Seq<char>|
        l.len() > 0 && l[0] == '+' ==> (#[trigger] recorded(map, l) is None && counted(l) == 0) || recorded(map, l)
            == Some(counted(l) as usize)
}

fn set_target(op: &mut InputOp, t: String)
    requires
        target_of(*old(op)) is Some,
    ensures
        retargeted(*old(op), *final(op), t@),
{
    match op {
        InputOp::Jump { label } => {
            *label = t;
        },
        InputOp::Branch { label, .. } => {
            *label = t;
        },
        InputOp::BranchCustom { label, .. } => {
            *label = t;
        },
        _ => {},
    }
}

/// `name-<direction>-label-idx`.
fn anonymous_string(name: &str, direction: &str, label: &String, idx: usize) -> (out: String)
    requires
        direction@ == seq!['-', 'b', '-'] || direction@ == seq!['-', 'f', '-'],
    ensures
        out@ == anonymous_name(name@, direction@[1], label@, idx as nat),
{
    let mut out = prefixed(name, direction, label);
    out.append("-");
    let digits = decimal_string(idx);
    out.append(digits.as_str());
    proof {
        reveal_strlit("-");
        assert(out@ =~= anonymous_name(name@, direction@[1], label@, idx as nat));
    }
    out
}

/// Gives the labels of `input` and its jump targets names that are unique across scripts:
/// `<name>-l-<label>` for a named label; `<name>-b-<label>-<n>` and `<name>-f-<label>-<n>`
/// for anonymous labels, numbered in the order they occur, a backward target naming the last
/// one before its line and a forward target the first one after it.
pub fn rename_labels(input: &mut Vec<InputLine>, name: &str)
    requires
        renamable(old(input)@),
        labels_before(old(input)@, old(input)@.len()) < usize::MAX,
    ensures
        final(input)@.len() == old(input)@.len(),
        forall|i: int|
            #![trigger final(input)@[i]]
            0 <= i < old(input)@.len() ==> {
                &&& strings_view(final(input)@[i].labels@) == Seq::new(
                    old(input)@[i].labels@.len(),
                    |p: int| renamed_label(old(input)@, name@, i as nat, p as nat),
                )
                &&& retargeted(
                    old(input)@[i].input_op,
                    final(input)@[i].input_op,
                    match target_of(old(input)@[i].input_op) {
                        Some(l) => renamed_target(old(input)@, name@, i as nat, l),
                        None => seq![],
                    },
                )
            },
{
    let ghost script = input@;
    let mut map: Vec<(String, usize)> = Vec::new();
    let mut i: usize = 0;
    proof {
        reveal_strlit("-b-");
        reveal_strlit("-f-");
        reveal_strlit("-l-");
    }
    while i < input.len()
        invariant
            i <= input@.len(),
            input@.len() == script.len(),
            renamable(script),
            labels_before(script, script.len()) < usize::MAX,
            "-b-"@ == seq!['-', 'b', '-'],
            "-f-"@ == seq!['-', 'f', '-'],
            "-l-"@ == seq!['-', 'l', '-'],
            map_matches(map@, |l: Seq<char>| count_before(script, i as nat, l)),
            forall|j: int| i <= j < script.len() ==> input@[j] == script[j],
            forall|j: int|
                #![trigger input@[j]]
                0 <= j < i ==> {
                    &&& strings_view(input@[j].labels@) == Seq::new(
                        script[j].labels@.len(),
                        |p: int| renamed_label(script, name@, j as nat, p as nat),
                    )
                    &&& retargeted(
                        script[j].input_op,
                        input@[j].input_op,
                        match target_of(script[j].input_op) {
                            Some(l) => renamed_target(script, name@, j as nat, l),
                            None => seq![],
                        },
                    )
                },
        decreases script.len() - i,
    {
        let mut line = InputLine { labels: Vec::new(), input_op: InputOp::Return };
        std::mem::swap(&mut line, &mut input[i]);
        let ghost orig = script[i as int];
        assert(line == orig);
        proof {
            lemma_count_before_monotone(script, i as nat, script.len(), seq![]);
            lemma_count_before_monotone(script, (i + 1) as nat, script.len(), seq![]);
        }
        // The target, cloned, and for a backward one the number of the label it names.
        let target: Option<String> = match target_label(&line.input_op) {
            Some(t) => Some(t.clone()),
            None => None,
        };
        let mut backward_idx: usize = 0;
        let ghost tgt: Option<Seq<char>> = match &target {
            Some(t) => Some(t@),
            None => None,
        };
        if let Some(t) = &target {
            if t.as_str().get_char(0) == '-' {
                proof {
                    lemma_found_counted(script, i as nat, t@);
                    lemma_count_before_le(script, i as nat, t@);
                }
                backward_idx = match lookup(&map, t) {
                    Some(idx) => idx,
                    None => 0,
                };
            }
        }
        // The labels of the line.
        let mut new_labels: Vec<String> = Vec::new();
        let mut p: usize = 0;
        proof {
            assert forall|l: Seq<char>| #[trigger] count_in(orig.labels@.take(0), l) == 0 by {
                assert(orig.labels@.take(0).len() == 0);
            }
        }
        while p < line.labels.len()
            invariant
                i < script.len(),
                orig == script[i as int],
                line.labels@ == orig.labels@,
                p <= orig.labels@.len(),
                renamable(script),
                labels_before(script, script.len()) < usize::MAX,
                labels_before(script, (i + 1) as nat) <= labels_before(script, script.len()),
                "-b-"@ == seq!['-', 'b', '-'],
                "-f-"@ == seq!['-', 'f', '-'],
                "-l-"@ == seq!['-', 'l', '-'],
                map_matches(
                    map@,
                    |l: Seq<char>| count_before(script, i as nat, l) + count_in(orig.labels@.take(p as int), l),
                ),
                new_labels@.len() == p,
                forall|q: int|
                    0 <= q < p ==> (#[trigger] new_labels@[q])@ == renamed_label(script, name@, i as nat, q as nat),
                tgt == target_of(orig.input_op),
                tgt == match &target {
                    Some(t) => Some(t@),
                    None => None::<Seq<char>>,
                },
                match tgt {
                    Some(t) => t.len() > 0 && (t[0] == '-' ==> backward_idx == count_before(script, i as nat, t) - 1),
                    None => true,
                },
            decreases orig.labels@.len() - p,
        {
            let label = &line.labels[p];
            let ghost l = label@;
            let ghost c = count_before(script, i as nat, l) + count_in(orig.labels@.take(p as int), l);
            proof {
                assert(script[i as int].labels@[p as int]@.len() > 0);
                lemma_count_before_le(script, i as nat, l);
                lemma_count_in_le(orig.labels@.take(p as int), l);
                lemma_count_in_take(orig.labels@, p as int, l);
                assert forall|m: Seq<char>| m != l implies #[trigger] count_in(orig.labels@.take(p + 1), m)
                    == count_in(orig.labels@.take(p as int), m) by {
                    lemma_count_in_take(orig.labels@, p as int, m);
                }
            }
            let first = label.as_str().get_char(0);
            let renamed = if first == '-' {
                let idx = match lookup(&map, label) {
                    Some(idx) => idx + 1,
                    None => 0,
                };
                record(&mut map, label, idx);
                anonymous_string(name, "-b-", label, idx)
            } else if first == '+' {
                let idx = match lookup(&map, label) {
                    Some(idx) => idx,
                    None => 0,
                };
                record(&mut map, label, idx + 1);
                anonymous_string(name, "-f-", label, idx)
            } else {
                prefixed(name, "-l-", label)
            };
            new_labels.push(renamed);
            p = p + 1;
        }
        line.labels = new_labels;
        proof {
            assert(orig.labels@.take(orig.labels@.len() as int) =~= orig.labels@);
            let after_line = |l: Seq<char>| count_before(script, (i + 1) as nat, l);
            let counted = |l: Seq<char>| count_before(script, i as nat, l) + count_in(orig.labels@.take(p as int), l);
            assert(counted =~= after_line);
            assert(map_matches(map@, after_line));
            assert(strings_view(line.labels@) =~= Seq::new(
                script[i as int].labels@.len(),
                |q: int| renamed_label(script, name@, i as nat, q as nat),
            ));
        }
        // The target's new name.
        if let Some(t) = target {
            let first = t.as_str().get_char(0);
            let renamed = if first == '-' {
                anonymous_string(name, "-b-", &t, backward_idx)
            } else if first == '+' {
                let idx = match lookup(&map, &t) {
                    Some(idx) => idx,
                    None => {
                        record(&mut map, &t, 0);
                        0
                    },
                };
                proof {
                    lemma_count_before_le(script, (i + 1) as nat, t@);
                }
                anonymous_string(name, "-f-", &t, idx)
            } else {
                prefixed(name, "-l-", &t)
            };
            set_target(&mut line.input_op, renamed);
        }
        input.set(i, line);
        i = i + 1;
    }
}


/// Whether `renamed` is what `rename_labels` makes of `script` with the name `name`.
pub open spec fn is_renamed(script: Seq<InputLine>, renamed: Seq<InputLine>, name: Seq<char>) -> bool {
    &&& renamed.len() == script.len()
    &&& forall|i: int|
        #![trigger renamed[i]]
        0 <= i < script.len() ==> {
            &&& strings_view(renamed[i].labels@) == Seq::new(
                script[i].labels@.len(),
                |p: int| renamed_label(script, name, i as nat, p as nat),
            )
            &&& retargeted(
                script[i].input_op,
                renamed[i].input_op,
                match target_of(script[i].input_op) {
                    Some(l) => renamed_target(script, name, i as nat, l),
                    None => seq![],
                },
            )
        }
}

/// The last `label` among `labels`, when there is one.
proof fn lemma_last_in(labels: Seq<String>, l: Seq<char>)
    requires
        count_in(labels, l) > 0,
    ensures
        exists|p: int|
            0 <= p < labels.len() && (#[trigger] labels[p])@ == l && count_in(labels.take(p), l) == count_in(labels, l) - 1,
    decreases labels.len(),
{
    let last = labels.len() - 1;
    if labels[last]@ == l {
        assert(labels.take(last) =~= labels.drop_last());
        assert(labels[last]@ == l);
    } else {
        lemma_last_in(labels.drop_last(), l);
        let p = choose|p: int|
            0 <= p < labels.drop_last().len() && (#[trigger] labels.drop_last()[p])@ == l && count_in(
                labels.drop_last().take(p),
                l,
            ) == count_in(labels.drop_last(), l) - 1;
        assert(labels.drop_last().take(p) =~= labels.take(p));
        assert(labels[p] == labels.drop_last()[p]);
    }
}

/// The first `label` among `labels`, when there is one.
proof fn lemma_first_in(labels: Seq<String>, l: Seq<char>)
    requires
        strings_view(labels).contains(l),
    ensures
        exists|p: int| 0 <= p < labels.len() && (#[trigger] labels[p])@ == l && count_in(labels.take(p), l) == 0,
    decreases labels.len(),
{
    let m = choose|m: int| 0 <= m < strings_view(labels).len() && strings_view(labels)[m] == l;
    assert(labels[m]@ == l);
    if strings_view(labels.take(m)).contains(l) {
        lemma_first_in(labels.take(m), l);
        let p = choose|p: int|
            0 <= p < labels.take(m).len() && (#[trigger] labels.take(m)[p])@ == l && count_in(labels.take(m).take(p), l)
                == 0;
        assert(labels.take(m).take(p) =~= labels.take(p));
        assert(labels[p] == labels.take(m)[p]);
    } else {
        lemma_count_none(labels.take(m), l);
    }
}

/// A label that is not among `labels` is counted 0 times there.
proof fn lemma_count_none(labels: Seq<String>, l: Seq<char>)
    requires
        !strings_view(labels).contains(l),
    ensures
        count_in(labels, l) == 0,
    decreases labels.len(),
{
    if labels.len() > 0 {
        assert(strings_view(labels)[labels.len() - 1] == labels.last()@);
        assert forall|m: int| 0 <= m < strings_view(labels.drop_last()).len() implies strings_view(labels.drop_last())[m]
            != l by {
            assert(strings_view(labels.drop_last())[m] == strings_view(labels)[m]);
        }
        lemma_count_none(labels.drop_last(), l);
    }
}

/// The last line before line `i` that carries `label`, when there is one, and the label's last
/// position there.
proof fn lemma_last_before(script: Seq<InputLine>, i: nat, l: Seq<char>)
    requires
        i <= script.len(),
        count_before(script, i, l) > 0,
    ensures
        exists|j: int, p: int|
            0 <= j < i && 0 <= p < script[j].labels@.len() && (#[trigger] script[j].labels@[p])@ == l && count_before(
                script,
                j as nat,
                l,
            ) + count_in(script[j].labels@.take(p), l) == count_before(script, i, l) - 1,
    decreases i,
{
    let j = i - 1;
    if count_in(script[j].labels@, l) > 0 {
        lemma_last_in(script[j].labels@, l);
        let p = choose|p: int|
            0 <= p < script[j].labels@.len() && (#[trigger] script[j].labels@[p])@ == l && count_in(
                script[j].labels@.take(p),
                l,
            ) == count_in(script[j].labels@, l) - 1;
        assert(script[j].labels@[p]@ == l);
    } else {
        lemma_last_before(script, j as nat, l);
    }
}

/// The first line from line `lo` on that carries `label`, when there is one.
proof fn lemma_first_from(script: Seq<InputLine>, lo: int, hi: int, l: Seq<char>)
    requires
        0 <= lo <= hi <= script.len(),
        found_in(script, lo, hi, l),
    ensures
        exists|j: int|
            lo <= j < hi && has_label(#[trigger] script[j], l) && count_before(script, j as nat, l) == count_before(
                script,
                lo as nat,
                l,
            ),
    decreases hi - lo,
{
    if has_label(script[lo], l) {
        assert(has_label(script[lo], l));
    } else {
        assert(found_in(script, lo + 1, hi, l)) by {
            let j = choose|j: int| lo <= j < hi && has_label(#[trigger] script[j], l);
            assert(j != lo);
        }
        lemma_first_from(script, lo + 1, hi, l);
        lemma_count_none(script[lo].labels@, l);
    }
}

/// After the labels of a script are checked and renamed, every jump target names a label of
/// the renamed script, on an earlier line for a backward target, on a later line for a forward
/// target, and on any line for a named one.
pub proof fn lemma_renamed_targets_resolve(
    script: Seq<InputLine>,
    renamed: Seq<InputLine>,
    name: Seq<char>,
    i: int,
)
    requires
        labels_valid(script),
        renamable(script),
        is_renamed(script, renamed, name),
        0 <= i < script.len(),
        target_of(script[i].input_op) is Some,
    ensures
        ({
            let l = target_of(script[i].input_op)->0;
            let t = renamed_target(script, name, i as nat, l);
            &&& l[0] == '-' ==> exists|j: int| 0 <= j < i && has_label(#[trigger] renamed[j], t)
            &&& l[0] == '+' ==> exists|j: int| i < j < script.len() && has_label(#[trigger] renamed[j], t)
            &&& exists|j: int| 0 <= j < script.len() && has_label(#[trigger] renamed[j], t)
        }),
{
    let l = target_of(script[i].input_op)->0;
    let t = renamed_target(script, name, i as nat, l);
    assert(line_ok(script, i));
    if l[0] == '-' {
        lemma_found_counted(script, i as nat, l);
        lemma_last_before(script, i as nat, l);
        let (j, p) = choose|j: int, p: int|
            0 <= j < i && 0 <= p < script[j].labels@.len() && (#[trigger] script[j].labels@[p])@ == l && count_before(
                script,
                j as nat,
                l,
            ) + count_in(script[j].labels@.take(p), l) == count_before(script, i as nat, l) - 1;
        assert(strings_view(renamed[j].labels@)[p] == renamed_label(script, name, j as nat, p as nat));
        assert(renamed_label(script, name, j as nat, p as nat) == t);
        assert(has_label(renamed[j], t));
    } else if l[0] == '+' {
        lemma_first_from(script, i + 1, script.len() as int, l);
        let j = choose|j: int|
            i + 1 <= j < script.len() && has_label(#[trigger] script[j], l) && count_before(script, j as nat, l)
                == count_before(script, (i + 1) as nat, l);
        lemma_first_in(script[j].labels@, l);
        let p = choose|p: int|
            0 <= p < script[j].labels@.len() && (#[trigger] script[j].labels@[p])@ == l && count_in(
                script[j].labels@.take(p),
                l,
            ) == 0;
        assert(strings_view(renamed[j].labels@)[p] == renamed_label(script, name, j as nat, p as nat));
        assert(renamed_label(script, name, j as nat, p as nat) == t);
        assert(has_label(renamed[j], t));
    } else {
        let j = choose|j: int| 0 <= j < script.len() && has_label(#[trigger] script[j], l);
        let p = choose|p: int|
            0 <= p < strings_view(script[j].labels@).len() && strings_view(script[j].labels@)[p] == l;
        assert(script[j].labels@[p]@ == l);
        assert(strings_view(renamed[j].labels@)[p] == renamed_label(script, name, j as nat, p as nat));
        assert(renamed_label(script, name, j as nat, p as nat) == t);
        assert(has_label(renamed[j], t));
    }
}

} // verus!
