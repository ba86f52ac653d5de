//! The command verbs a player types: `join <username>`, `ready`, `notready`,
//! `check`, `addmoney <amount>`, `fold` and `leave`.
use crate::events::{GamePlayerAction, ServerBound, ServerBoundModel};
use crate::protocol::string_from_utf8;
use vstd::prelude::*;
use vstd::utf8::decode_utf8;

verus! {

pub open spec fn is_digits(s: Seq<u8>) -> bool {
    s.len() > 0 && forall|i: int| 0 <= i < s.len() ==> 48 <= #[trigger] s[i] <= 57
}

/// The number that decimal digits spell.
pub open spec fn decimal_value(s: Seq<u8>) -> int
    decreases s.len(),
{
    if s.len() == 0 {
        0
    } else {
        decimal_value(s.drop_last()) * 10 + (s.last() - 48)
    }
}

/// A username: 3 to 16 ASCII characters, no space.
pub open spec fn username_ok(s: Seq<u8>) -> bool {
    3 <= s.len() <= 16 && forall|i: int| 0 <= i < s.len() ==> #[trigger] s[i] < 128 && s[i] != 32
}

pub open spec fn word_ready() -> Seq<u8> {
    seq![114u8, 101, 97, 100, 121]
}

pub open spec fn word_notready() -> Seq<u8> {
    seq![110u8, 111, 116, 114, 101, 97, 100, 121]
}

pub open spec fn word_check() -> Seq<u8> {
    seq![99u8, 104, 101, 99, 107]
}

pub open spec fn word_fold() -> Seq<u8> {
    seq![102u8, 111, 108, 100]
}

pub open spec fn word_leave() -> Seq<u8> {
    seq![108u8, 101, 97, 118, 101]
}

/// `join` and a space.
pub open spec fn word_join() -> Seq<u8> {
    seq![106u8, 111, 105, 110, 32]
}

/// `addmoney` and a space.
pub open spec fn word_addmoney() -> Seq<u8> {
    seq![97u8, 100, 100, 109, 111, 110, 101, 121, 32]
}

pub open spec fn starts_with(line: Seq<u8>, w: Seq<u8>) -> bool {
    line.len() >= w.len() && line.subrange(0, w.len() as int) == w
}

/// The command a typed line asks for, if any.
pub open spec fn command_of(line: Seq<u8>) -> Option<ServerBoundModel> {
    if line == word_ready() {
        Some(ServerBoundModel::Ready(true))
    } else if line == word_notready() {
        Some(ServerBoundModel::Ready(false))
    } else if line == word_check() {
        Some(ServerBoundModel::GameAction(GamePlayerAction::Check))
    } else if line == word_fold() {
        Some(ServerBoundModel::GameAction(GamePlayerAction::Fold))
    } else if line == word_leave() {
        Some(ServerBoundModel::Disconnect)
    } else if starts_with(line, word_join()) {
        let name = line.subrange(5, line.len() as int);
        if username_ok(name) {
            Some(ServerBoundModel::Login(decode_utf8(name)))
        } else {
            None
        }
    } else if starts_with(line, word_addmoney()) {
        let digits = line.subrange(9, line.len() as int);
        if is_digits(digits) && decimal_value(digits) <= u32::MAX {
            Some(ServerBoundModel::GameAction(GamePlayerAction::AddMoney(decimal_value(digits) as u32)))
        } else {
            None
        }
    } else {
        None
    }
}

fn matches_word(line: &Vec<u8>, w: &Vec<u8>, whole: bool) -> (r: bool)
    ensures
        r == if whole {
            line@ == w@
        } else {
            starts_with(line@, w@)
        },
{
    if line.len() < w.len() || (whole && line.len() != w.len()) {
        return false;
    }
    let mut i: usize = 0;
    while i < w.len()
        invariant
            0 <= i <= w.len() <= line.len(),
            forall|j: int| 0 <= j < i ==> line@[j] == w@[j],
        decreases w.len() - i,
    {
        if line[i] != w[i] {
            return false;
        }
        i = i + 1;
    }
    if whole {
        assert(line@ =~= w@);
    } else {
        assert(line@.subrange(0, w.len() as int) =~= w@);
    }
    true
}

fn username_bytes_ok(line: &Vec<u8>, from: usize) -> (r: bool)
    requires
        from <= line.len(),
    ensures
        r == username_ok(line@.subrange(from as int, line.len() as int)),
{
    let ghost name = line@.subrange(from as int, line.len() as int);
    let n = line.len() - from;
    if n < 3 || n > 16 {
        return false;
    }
    let mut i: usize = from;
    while i < line.len()
        invariant
            from <= i <= line.len(),
            name == line@.subrange(from as int, line.len() as int),
            forall|j: int| 0 <= j < i - from ==> name[j] < 128 && name[j] != 32,
        decreases line.len() - i,
    {
        if line[i] >= 128 || line[i] == 32 {
            assert(name[i - from] == line@[i as int]);
            return false;
        }
        assert(name[i - from] == line@[i as int]);
        i = i + 1;
    }
    true
}

/// The decimal number in `line[from..]`, if it is all digits and fits a `u32`.
fn decimal_at(line: &Vec<u8>, from: usize) -> (r: Option<u32>)
    requires
        from <= line.len(),
    ensures
        ({
            let digits = line@.subrange(from as int, line.len() as int);
            match r {
                Some(v) => is_digits(digits) && decimal_value(digits) == v,
                None => !is_digits(digits) || decimal_value(digits) > u32::MAX,
            }
        }),
{
    let ghost digits = line@.subrange(from as int, line.len() as int);
    if from == line.len() {
        return None;
    }
    let mut value: u64 = 0;
    let mut i: usize = from;
    while i < line.len()
        invariant
            from <= i <= line.len(),
            digits == line@.subrange(from as int, line.len() as int),
            forall|j: int| 0 <= j < i - from ==> 48 <= #[trigger] digits[j] <= 57,
            value == decimal_value(digits.subrange(0, i - from)),
            value <= u32::MAX,
        decreases line.len() - i,
    {
        let b = line[i];
        assert(digits[i - from] == b);
        if b < 48 || b > 57 {
            return None;
        }
        let ghost prefix = digits.subrange(0, i - from + 1);
        assert(prefix.drop_last() =~= digits.subrange(0, i - from));
        let next = value * 10 + (b - 48) as u64;
        if next > 0xffff_ffff {
            proof {
                lemma_decimal_tail_grows(digits, i - from + 1);
            }
            return None;
        }
        value = next;
        i = i + 1;
    }
    assert(digits.subrange(0, digits.len() as int) =~= digits);
    Some(value as u32)
}

/// Once a prefix of digits spells more than a `u32` holds, so does the whole.
proof fn lemma_decimal_tail_grows(digits: Seq<u8>, k: int)
    requires
        1 <= k <= digits.len(),
        forall|j: int| 0 <= j < k ==> 48 <= #[trigger] digits[j] <= 57,
        decimal_value(digits.subrange(0, k)) > u32::MAX,
    ensures
        !is_digits(digits) || decimal_value(digits) > u32::MAX,
    decreases digits.len() - k,
{
    if k < digits.len() && is_digits(digits) {
        let p = digits.subrange(0, k + 1);
        assert(p.drop_last() =~= digits.subrange(0, k));
        lemma_decimal_tail_grows(digits, k + 1);
    } else if k == digits.len() {
        assert(digits.subrange(0, k) =~= digits);
    }
}

pub open spec fn command_view(r: Option<ServerBound>) -> Option<ServerBoundModel> {
    match r {
        Some(x) => Some(x@),
        None => None,
    }
}

/// The command a typed line asks for; `None` for anything else.
pub fn handle_command(line: &Vec<u8>) -> (r: Option<ServerBound>)
    ensures
        command_view(r) == command_of(line@),
{
    let ready: Vec<u8> = vec![114u8, 101, 97, 100, 121];
    let notready: Vec<u8> = vec![110u8, 111, 116, 114, 101, 97, 100, 121];
    let check: Vec<u8> = vec![99u8, 104, 101, 99, 107];
    let fold: Vec<u8> = vec![102u8, 111, 108, 100];
    let leave: Vec<u8> = vec![108u8, 101, 97, 118, 101];
    let join: Vec<u8> = vec![106u8, 111, 105, 110, 32];
    let addmoney: Vec<u8> = vec![97u8, 100, 100, 109, 111, 110, 101, 121, 32];
    assert(ready@ =~= word_ready());
    assert(notready@ =~= word_notready());
    assert(check@ =~= word_check());
    assert(fold@ =~= word_fold());
    assert(leave@ =~= word_leave());
    assert(join@ =~= word_join());
    assert(addmoney@ =~= word_addmoney());
    if matches_word(line, &ready, true) {
        Some(ServerBound::Ready(true))
    } else if matches_word(line, &notready, true) {
        Some(ServerBound::Ready(false))
    } else if matches_word(line, &check, true) {
        Some(ServerBound::GameAction(GamePlayerAction::Check))
    } else if matches_word(line, &fold, true) {
        Some(ServerBound::GameAction(GamePlayerAction::Fold))
    } else if matches_word(line, &leave, true) {
        Some(ServerBound::Disconnect)
    } else if matches_word(line, &join, false) {
        if !username_bytes_ok(line, 5) {
            return None;
        }
        let mut name: Vec<u8> = Vec::new();
        let mut i: usize = 5;
        while i < line.len()
            invariant
                5 <= i <= line.len(),
                name@ == line@.subrange(5, i as int),
            decreases line.len() - i,
        {
            name.push(line[i]);
            i = i + 1;
            assert(name@ =~= line@.subrange(5, i as int));
        }
        let ghost bytes = name@;
        proof {
            lemma_ascii_valid(bytes);
        }
        match string_from_utf8(name) {
            Some(s) => Some(ServerBound::Login(s)),
            None => None,
        }
    } else if matches_word(line, &addmoney, false) {
        match decimal_at(line, 9) {
            Some(v) => Some(ServerBound::GameAction(GamePlayerAction::AddMoney(v))),
            None => None,
        }
    } else {
        None
    }
}

/// Bytes below 128 are valid UTF-8.
proof fn lemma_ascii_valid(bytes: Seq<u8>)
    requires
        forall|i: int| 0 <= i < bytes.len() ==> #[trigger] bytes[i] < 128,
    ensures
        vstd::utf8::valid_utf8(bytes),
    decreases bytes.len(),
{
    assert(vstd::utf8::valid_utf8(bytes.subrange(0, 0))) by {
        assert(bytes.subrange(0, 0) =~= Seq::<u8>::empty());
    }
    assert forall|i: int| 0 <= i < bytes.len() implies #[trigger] vstd::utf8::is_leading_byte_width_1(
        bytes[i],
    ) by {}
    vstd::utf8::partial_valid_utf8_extend_ascii_block(bytes, 0, bytes.len() as int);
    assert(bytes.subrange(0, bytes.len() as int) =~= bytes);
}

} // verus!
