use vstd::prelude::*;
use vstd::string::StringSliceAdditionalSpecFns;

verus! {

/// The achievements of the game: five for reaching a tile value, seven for
/// reaching a score.
#[derive(Clone, Copy, Debug, PartialEq, Eq, Hash, Structural)]
pub enum AchievementType {
    Tile128,
    Tile256,
    Tile512,
    Tile1024,
    Tile2048,
    Score1000,
    Score3000,
    Score5000,
    Score7000,
    Score10000,
    Score15000,
    Score20000,
}

/// The number of achievements.
pub open spec fn achievement_count() -> nat {
    12
}

/// The number under which an achievement is saved: its position in the
/// declaration, from 0 to 11.
pub open spec fn achievement_id(a: AchievementType) -> nat {
    match a {
        AchievementType::Tile128 => 0,
        AchievementType::Tile256 => 1,
        AchievementType::Tile512 => 2,
        AchievementType::Tile1024 => 3,
        AchievementType::Tile2048 => 4,
        AchievementType::Score1000 => 5,
        AchievementType::Score3000 => 6,
        AchievementType::Score5000 => 7,
        AchievementType::Score7000 => 8,
        AchievementType::Score10000 => 9,
        AchievementType::Score15000 => 10,
        AchievementType::Score20000 => 11,
    }
}

/// The achievement saved under number `n` (for `n < 12`).
pub open spec fn achievement_of_id(n: int) -> AchievementType {
    if n == 0 {
        AchievementType::Tile128
    } else if n == 1 {
        AchievementType::Tile256
    } else if n == 2 {
        AchievementType::Tile512
    } else if n == 3 {
        AchievementType::Tile1024
    } else if n == 4 {
        AchievementType::Tile2048
    } else if n == 5 {
        AchievementType::Score1000
    } else if n == 6 {
        AchievementType::Score3000
    } else if n == 7 {
        AchievementType::Score5000
    } else if n == 8 {
        AchievementType::Score7000
    } else if n == 9 {
        AchievementType::Score10000
    } else if n == 10 {
        AchievementType::Score15000
    } else {
        AchievementType::Score20000
    }
}

/// The tile value or score an achievement stands for.
pub open spec fn achievement_value(a: AchievementType) -> int {
    match a {
        AchievementType::Tile128 => 128,
        AchievementType::Tile256 => 256,
        AchievementType::Tile512 => 512,
        AchievementType::Tile1024 => 1024,
        AchievementType::Tile2048 => 2048,
        AchievementType::Score1000 => 1000,
        AchievementType::Score3000 => 3000,
        AchievementType::Score5000 => 5000,
        AchievementType::Score7000 => 7000,
        AchievementType::Score10000 => 10000,
        AchievementType::Score15000 => 15000,
        AchievementType::Score20000 => 20000,
    }
}

/// Whether an achievement is for a score rather than for a tile.
pub open spec fn achievement_is_score(a: AchievementType) -> bool {
    achievement_id(a) >= 5
}

/// The title shown for an achievement.
pub open spec fn achievement_name(a: AchievementType) -> Seq<char> {
    match a {
        AchievementType::Tile128 => "合成128"@,
        AchievementType::Tile256 => "合成256"@,
        AchievementType::Tile512 => "合成512"@,
        AchievementType::Tile1024 => "合成1024"@,
        AchievementType::Tile2048 => "合成2048"@,
        AchievementType::Score1000 => "达到1000分"@,
        AchievementType::Score3000 => "达到3000分"@,
        AchievementType::Score5000 => "达到5000分"@,
        AchievementType::Score7000 => "达到7000分"@,
        AchievementType::Score10000 => "达到10000分"@,
        AchievementType::Score15000 => "达到15000分"@,
        AchievementType::Score20000 => "达到20000分"@,
    }
}

/// The description shown for an achievement.
pub open spec fn achievement_description(a: AchievementType) -> Seq<char> {
    match a {
        AchievementType::Tile128 => "首次合成出128方块"@,
        AchievementType::Tile256 => "首次合成出256方块"@,
        AchievementType::Tile512 => "首次合成出512方块"@,
        AchievementType::Tile1024 => "首次合成出1024方块"@,
        AchievementType::Tile2048 => "首次合成出2048方块"@,
        AchievementType::Score1000 => "累计达到1000分"@,
        AchievementType::Score3000 => "累计达到3000分"@,
        AchievementType::Score5000 => "累计达到5000分"@,
        AchievementType::Score7000 => "累计达到7000分"@,
        AchievementType::Score10000 => "累计达到10000分"@,
        AchievementType::Score15000 => "累计达到15000分"@,
        AchievementType::Score20000 => "累计达到20000分"@,
    }
}

impl AchievementType {
    /// The title of the achievement.
    pub fn get_name(&self) -> (r: &'static str)
        ensures
            r@ == achievement_name(*self),
    {
        match self {
            AchievementType::Tile128 => "合成128",
            AchievementType::Tile256 => "合成256",
            AchievementType::Tile512 => "合成512",
            AchievementType::Tile1024 => "合成1024",
            AchievementType::Tile2048 => "合成2048",
            AchievementType::Score1000 => "达到1000分",
            AchievementType::Score3000 => "达到3000分",
            AchievementType::Score5000 => "达到5000分",
            AchievementType::Score7000 => "达到7000分",
            AchievementType::Score10000 => "达到10000分",
            AchievementType::Score15000 => "达到15000分",
            AchievementType::Score20000 => "达到20000分",
        }
    }

    /// The description of the achievement.
    pub fn get_description(&self) -> (r: &'static str)
        ensures
            r@ == achievement_description(*self),
    {
        match self {
            AchievementType::Tile128 => "首次合成出128方块",
            AchievementType::Tile256 => "首次合成出256方块",
            AchievementType::Tile512 => "首次合成出512方块",
            AchievementType::Tile1024 => "首次合成出1024方块",
            AchievementType::Tile2048 => "首次合成出2048方块",
            AchievementType::Score1000 => "累计达到1000分",
            AchievementType::Score3000 => "累计达到3000分",
            AchievementType::Score5000 => "累计达到5000分",
            AchievementType::Score7000 => "累计达到7000分",
            AchievementType::Score10000 => "累计达到10000分",
            AchievementType::Score15000 => "累计达到15000分",
            AchievementType::Score20000 => "累计达到20000分",
        }
    }

    /// Whether this is a score achievement.
    pub fn is_score(&self) -> (r: bool)
        ensures
            r == achievement_is_score(*self),
    {
        match self {
            AchievementType::Score1000 | AchievementType::Score3000 | AchievementType::Score5000
            | AchievementType::Score7000 | AchievementType::Score10000
            | AchievementType::Score15000 | AchievementType::Score20000 => true,
            _ => false,
        }
    }

    /// The tile value or score the achievement stands for.
    pub fn get_value(&self) -> (r: i32)
        ensures
            r == achievement_value(*self),
    {
        match self {
            AchievementType::Tile128 => 128,
            AchievementType::Tile256 => 256,
            AchievementType::Tile512 => 512,
            AchievementType::Tile1024 => 1024,
            AchievementType::Tile2048 => 2048,
            AchievementType::Score1000 => 1000,
            AchievementType::Score3000 => 3000,
            AchievementType::Score5000 => 5000,
            AchievementType::Score7000 => 7000,
            AchievementType::Score10000 => 10000,
            AchievementType::Score15000 => 15000,
            AchievementType::Score20000 => 20000,
        }
    }

    /// The number under which the achievement is saved.
    pub fn id(&self) -> (r: usize)
        ensures
            r == achievement_id(*self),
    {
        match self {
            AchievementType::Tile128 => 0,
            AchievementType::Tile256 => 1,
            AchievementType::Tile512 => 2,
            AchievementType::Tile1024 => 3,
            AchievementType::Tile2048 => 4,
            AchievementType::Score1000 => 5,
            AchievementType::Score3000 => 6,
            AchievementType::Score5000 => 7,
            AchievementType::Score7000 => 8,
            AchievementType::Score10000 => 9,
            AchievementType::Score15000 => 10,
            AchievementType::Score20000 => 11,
        }
    }

    /// The achievement saved under number `n`, if any.
    pub fn from_id(n: usize) -> (r: Option<AchievementType>)
        ensures
            r == (if n < 12 { Some(achievement_of_id(n as int)) } else { None }),
    {
        match n {
            0 => Some(AchievementType::Tile128),
            1 => Some(AchievementType::Tile256),
            2 => Some(AchievementType::Tile512),
            3 => Some(AchievementType::Tile1024),
            4 => Some(AchievementType::Tile2048),
            5 => Some(AchievementType::Score1000),
            6 => Some(AchievementType::Score3000),
            7 => Some(AchievementType::Score5000),
            8 => Some(AchievementType::Score7000),
            9 => Some(AchievementType::Score10000),
            10 => Some(AchievementType::Score15000),
            11 => Some(AchievementType::Score20000),
            _ => None,
        }
    }
}

/// Law: saving numbers identify achievements: every achievement is the one
/// saved under its own number, and that number is below 12.
pub proof fn lemma_id_round_trip(a: AchievementType)
    ensures
        achievement_id(a) < achievement_count(),
        achievement_of_id(achievement_id(a) as int) == a,
{
}

// ---------------------------------------------------------------------------
// The saved form: one achievement number per line
// ---------------------------------------------------------------------------

/// The newline byte.
pub open spec fn newline() -> u8 {
    10
}

/// The carriage-return byte.
pub open spec fn carriage_return() -> u8 {
    13
}

/// The position of the first newline in `s`, or `s.len()` when there is none.
pub open spec fn first_newline(s: Seq<u8>) -> nat
    decreases s.len(),
{
    if s.len() == 0 {
        0
    } else if s[0] == newline() {
        0
    } else {
        1 + first_newline(s.skip(1))
    }
}

/// A line without its final carriage return, if it has one.
pub open spec fn strip_carriage_return(l: Seq<u8>) -> Seq<u8> {
    if l.len() > 0 && l.last() == carriage_return() {
        l.drop_last()
    } else {
        l
    }
}

/// The lines of a text: split after each newline; a line that ends in a
/// newline loses it and then a carriage return before it; a last line
/// without a newline is kept as it is; an empty text has no lines.
pub open spec fn lines_of(s: Seq<u8>) -> Seq<Seq<u8>>
    decreases s.len(),
{
    if s.len() == 0 {
        seq![]
    } else {
        let i = first_newline(s);
        if i >= s.len() {
            seq![s]
        } else {
            seq![strip_carriage_return(s.take(i as int))] + lines_of(s.skip(i as int + 1))
        }
    }
}

/// Whether `b` is an ASCII decimal digit.
pub open spec fn is_digit(b: u8) -> bool {
    48 <= b <= 57
}

/// The number written by a sequence of decimal digits.
pub open spec fn decimal(d: Seq<u8>) -> int
    decreases d.len(),
{
    if d.len() == 0 {
        0
    } else {
        10 * decimal(d.drop_last()) + (d.last() - 48)
    }
}

/// Whether every byte of `d` is a decimal digit.
pub open spec fn all_digits(d: Seq<u8>) -> bool {
    forall|i: int| 0 <= i < d.len() ==> #[trigger] is_digit(d[i])
}

/// Whether a line starts with a sign, `+` or `-`.
pub open spec fn has_sign(l: Seq<u8>) -> bool {
    l.len() > 0 && (l[0] == 43u8 || l[0] == 45u8)
}

/// The part of a line after its sign, if it has one.
pub open spec fn unsigned_part(l: Seq<u8>) -> Seq<u8> {
    if has_sign(l) {
        l.skip(1)
    } else {
        l
    }
}

/// The achievement number a saved line stands for: the line must read as a
/// 32-bit integer (an optional sign, then one or more decimal digits) whose
/// value lies between 0 and 11.
pub open spec fn line_id(l: Seq<u8>) -> Option<int> {
    let negative = l.len() > 0 && l[0] == 45u8;
    let d = unsigned_part(l);
    if d.len() > 0 && all_digits(d) && decimal(d) < 12 && (!negative || decimal(d) == 0) {
        Some(decimal(d))
    } else {
        None
    }
}

/// The achievements named by the lines of a saved text.
pub open spec fn parse_saved(s: Seq<u8>) -> Set<AchievementType> {
    Set::new(
        |a: AchievementType|
            exists|k: int|
                0 <= k < lines_of(s).len() && #[trigger] line_id(lines_of(s)[k]) == Some(
                    achievement_id(a) as int,
                ),
    )
}

/// The decimal writing of an achievement number.
pub open spec fn id_digits(n: nat) -> Seq<u8> {
    if n < 10 {
        seq![(48 + n) as u8]
    } else {
        seq![49u8, (48 + n - 10) as u8]
    }
}

/// The lines saved for the achievements of `set` among the first `k`
/// numbers, in ascending order.
pub open spec fn saved_lines_before(set: Set<AchievementType>, k: nat) -> Seq<Seq<u8>>
    decreases k,
{
    if k == 0 {
        seq![]
    } else {
        let p = saved_lines_before(set, (k - 1) as nat);
        if set.contains(achievement_of_id(k - 1)) {
            p.push(id_digits((k - 1) as nat))
        } else {
            p
        }
    }
}

/// Lines joined into a text, each followed by a newline.
pub open spec fn join_lines(ls: Seq<Seq<u8>>) -> Seq<u8>
    decreases ls.len(),
{
    if ls.len() == 0 {
        seq![]
    } else {
        ls[0].push(newline()) + join_lines(ls.skip(1))
    }
}

/// The saved text of a set of achievements: the number of each, in
/// ascending order, one per line.
pub open spec fn saved_text(set: Set<AchievementType>) -> Seq<u8> {
    join_lines(saved_lines_before(set, 12))
}

proof fn lemma_first_newline_after(a: Seq<u8>, b: Seq<u8>)
    requires
        forall|k: int| 0 <= k < a.len() ==> a[k] != newline(),
    ensures
        first_newline(a.push(newline()) + b) == a.len(),
    decreases a.len(),
{
    let s = a.push(newline()) + b;
    if a.len() > 0 {
        assert(s.skip(1) =~= a.skip(1).push(newline()) + b);
        lemma_first_newline_after(a.skip(1), b);
    } else {
        assert(s[0] == newline());
    }
}

/// A line that can be written back as it is read: it holds no newline and
/// does not end in a carriage return.
pub open spec fn plain_line(l: Seq<u8>) -> bool {
    &&& forall|k: int| 0 <= k < l.len() ==> l[k] != newline()
    &&& (l.len() == 0 || l.last() != carriage_return())
}

/// Law: joining plain lines, each followed by a newline, and splitting the
/// text into lines again gives back the same lines.
pub proof fn lemma_lines_of_join(ls: Seq<Seq<u8>>)
    requires
        forall|k: int| 0 <= k < ls.len() ==> #[trigger] plain_line(ls[k]),
    ensures
        lines_of(join_lines(ls)) == ls,
    decreases ls.len(),
{
    if ls.len() > 0 {
        let a = ls[0];
        let rest = join_lines(ls.skip(1));
        let s = join_lines(ls);
        assert(plain_line(a));
        lemma_first_newline_after(a, rest);
        assert(s.take(a.len() as int) =~= a);
        assert(s.skip(a.len() as int + 1) =~= rest);
        assert forall|k: int| 0 <= k < ls.skip(1).len() implies #[trigger] plain_line(ls.skip(1)[k]) by {
            assert(plain_line(ls[k + 1]));
        }
        lemma_lines_of_join(ls.skip(1));
        assert(lines_of(s) =~= seq![a] + ls.skip(1));
        assert(ls =~= seq![a] + ls.skip(1));
    }
}

proof fn lemma_id_digits(n: nat)
    requires
        n < 12,
    ensures
        plain_line(id_digits(n)),
        decimal(id_digits(n)) == n,
        line_id(id_digits(n)) == Some(n as int),
{
    reveal_with_fuel(decimal, 3);
    let d = id_digits(n);
    if n < 10 {
        assert(d.drop_last() =~= Seq::<u8>::empty());
        assert(d[0] == 48 + n);
        assert(decimal(d) == n);
    } else {
        assert(d.drop_last() =~= seq![49u8]);
        assert(d.drop_last().drop_last() =~= Seq::<u8>::empty());
        assert(d[1] == 48 + n - 10);
        assert(decimal(d.drop_last()) == 1);
        assert(decimal(d) == n);
    }
}

/// A line of the saved text of `set` that names an achievement of `set`
/// numbered below `k`.
spec fn saved_line_ok(set: Set<AchievementType>, k: nat, l: Seq<u8>) -> bool {
    &&& 0 <= decimal(l) < k
    &&& l == id_digits(decimal(l) as nat)
    &&& set.contains(achievement_of_id(decimal(l)))
}

proof fn lemma_saved_lines(set: Set<AchievementType>, k: nat)
    requires
        k <= 12,
    ensures
        forall|j: int|
            0 <= j < saved_lines_before(set, k).len() ==> saved_line_ok(
                set,
                k,
                #[trigger] saved_lines_before(set, k)[j],
            ),
        forall|n: nat|
            n < k && set.contains(achievement_of_id(n as int)) ==> saved_lines_before(set, k).contains(
                #[trigger] id_digits(n),
            ),
    decreases k,
{
    if k > 0 {
        lemma_saved_lines(set, (k - 1) as nat);
        lemma_id_digits((k - 1) as nat);
        let p = saved_lines_before(set, (k - 1) as nat);
        let l = saved_lines_before(set, k);
        assert forall|j: int| 0 <= j < l.len() implies saved_line_ok(set, k, #[trigger] l[j]) by {
            if j < p.len() {
                assert(l[j] == p[j]);
                assert(saved_line_ok(set, (k - 1) as nat, p[j]));
            }
        }
        assert forall|n: nat| n < k && set.contains(achievement_of_id(n as int)) implies l.contains(
            #[trigger] id_digits(n),
        ) by {
            if n < k - 1 {
                assert(p.contains(id_digits(n)));
                let j = choose|j: int| 0 <= j < p.len() && p[j] == id_digits(n);
                assert(l[j] == p[j]);
            } else {
                assert(l[p.len() as int] == id_digits(n));
            }
        }
    }
}

/// Law: reading back the saved text of a set of achievements gives the same
/// set.
pub proof fn lemma_save_then_load(set: Set<AchievementType>)
    ensures
        parse_saved(saved_text(set)) == set,
{
    let ls = saved_lines_before(set, 12);
    lemma_saved_lines(set, 12);
    assert forall|k: int| 0 <= k < ls.len() implies #[trigger] plain_line(ls[k]) by {
        assert(saved_line_ok(set, 12, ls[k]));
        lemma_id_digits(decimal(ls[k]) as nat);
    }
    lemma_lines_of_join(ls);
    assert(lines_of(saved_text(set)) == ls);
    assert forall|a: AchievementType| parse_saved(saved_text(set)).contains(a) <==> set.contains(a) by {
        let n = achievement_id(a);
        lemma_id_digits(n);
        if set.contains(a) {
            assert(ls.contains(id_digits(n)));
            let j = choose|j: int| 0 <= j < ls.len() && ls[j] == id_digits(n);
            assert(line_id(ls[j]) == Some(n as int));
        }
        if parse_saved(saved_text(set)).contains(a) {
            let k = choose|k: int|
                0 <= k < ls.len() && #[trigger] line_id(ls[k]) == Some(achievement_id(a) as int);
            assert(saved_line_ok(set, 12, ls[k]));
            let m = decimal(ls[k]) as nat;
            lemma_id_digits(m);
            assert(m == n);
        }
    }
    assert(parse_saved(saved_text(set)) =~= set);
}

proof fn lemma_first_newline_at(t: Seq<u8>, i: int)
    requires
        0 <= i <= t.len(),
        i < t.len() ==> t[i] == newline(),
        forall|k: int| 0 <= k < i ==> t[k] != newline(),
    ensures
        first_newline(t) == i,
    decreases t.len(),
{
    if t.len() > 0 && i > 0 {
        assert forall|k: int| 0 <= k < i - 1 implies t.skip(1)[k] != newline() by {
            assert(t.skip(1)[k] == t[k + 1]);
        }
        lemma_first_newline_at(t.skip(1), i - 1);
    }
}

/// The achievement number written on the line `bytes[start..end]`, as
/// `line_id` reads it.
fn line_number(bytes: &[u8], start: usize, end: usize) -> (r: Option<usize>)
    requires
        start <= end <= bytes@.len(),
    ensures
        r matches Some(n) ==> line_id(bytes@.subrange(start as int, end as int)) == Some(n as int),
        r is None ==> line_id(bytes@.subrange(start as int, end as int)) is None,
{
    let ghost l = bytes@.subrange(start as int, end as int);
    let mut i = start;
    let mut negative = false;
    if i < end && (bytes[i] == 43 || bytes[i] == 45) {
        negative = bytes[i] == 45;
        i = i + 1;
    }
    let first = i;
    let ghost d = bytes@.subrange(first as int, end as int);
    assert(d =~= unsigned_part(l));
    if i >= end {
        return None;
    }
    let mut value: u32 = 0;
    while i < end
        invariant
            first <= i <= end,
            end <= bytes@.len(),
            d == bytes@.subrange(first as int, end as int),
            l == bytes@.subrange(start as int, end as int),
            d == unsigned_part(l),
            start <= first,
            negative == (l.len() > 0 && l[0] == 45u8),
            d.len() > 0,
            forall|k: int| 0 <= k < i - first ==> #[trigger] is_digit(d[k]),
            decimal(d.take(i - first)) >= 0,
            value == (if decimal(d.take(i - first)) < 12 { decimal(d.take(i - first)) } else { 12 }),
        decreases end - i,
    {
        let b = bytes[i];
        if b < 48 || b > 57 {
            assert(!is_digit(d[i - first]));
            return None;
        }
        let ghost k = i - first;
        assert(d.take(k + 1).drop_last() =~= d.take(k));
        assert(d.take(k + 1).last() == b);
        if value >= 12 {
            value = 12;
        } else {
            value = value * 10 + (b - 48) as u32;
            if value > 12 {
                value = 12;
            }
        }
        i = i + 1;
    }
    assert(d.take(end - first) =~= d);
    if value >= 12 || (negative && value != 0) {
        None
    } else {
        Some(value as usize)
    }
}

proof fn lemma_of_id_round_trip(n: int)
    requires
        0 <= n < 12,
    ensures
        achievement_id(achievement_of_id(n)) == n,
{
}

proof fn lemma_join_push(ls: Seq<Seq<u8>>, l: Seq<u8>)
    ensures
        join_lines(ls.push(l)) == join_lines(ls) + l.push(newline()),
    decreases ls.len(),
{
    if ls.len() == 0 {
        assert(ls.push(l).skip(1) =~= Seq::<Seq<u8>>::empty());
        assert(join_lines(ls.push(l)) =~= l.push(newline()) + join_lines(Seq::<Seq<u8>>::empty()));
        assert(join_lines(ls.push(l)) =~= join_lines(ls) + l.push(newline()));
    } else {
        assert(ls.push(l).skip(1) =~= ls.skip(1).push(l));
        lemma_join_push(ls.skip(1), l);
        assert(join_lines(ls.push(l)) =~= join_lines(ls) + l.push(newline()));
    }
}

proof fn lemma_count_set(flags: Seq<bool>, k: int)
    requires
        0 <= k <= 12,
        flags.len() == 12,
    ensures
        Set::new(|a: AchievementType| achievement_id(a) < k && flags[achievement_id(a) as int]).finite(),
        Set::new(|a: AchievementType| achievement_id(a) < k && flags[achievement_id(a) as int]).len()
            == count_true(flags, k),
    decreases k,
{
    let s = Set::new(|a: AchievementType| achievement_id(a) < k && flags[achievement_id(a) as int]);
    if k == 0 {
        assert(s =~= Set::<AchievementType>::empty());
    } else {
        lemma_count_set(flags, k - 1);
        let p = Set::new(|a: AchievementType| achievement_id(a) < k - 1 && flags[achievement_id(a) as int]);
        let a = achievement_of_id(k - 1);
        lemma_of_id_round_trip(k - 1);
        if flags[k - 1] {
            assert(s =~= p.insert(a));
            assert(!p.contains(a));
        } else {
            assert(s =~= p);
        }
    }
}

// ---------------------------------------------------------------------------
// The tracker
// ---------------------------------------------------------------------------

/// The achievements in the order in which they are listed.
pub open spec fn all_achievements() -> Seq<AchievementType> {
    Seq::new(12, |n: int| achievement_of_id(n))
}

/// The tile achievement for a tile value, if there is one.
pub open spec fn tile_achievement(tile_value: i32) -> Option<AchievementType> {
    if tile_value == 128 {
        Some(AchievementType::Tile128)
    } else if tile_value == 256 {
        Some(AchievementType::Tile256)
    } else if tile_value == 512 {
        Some(AchievementType::Tile512)
    } else if tile_value == 1024 {
        Some(AchievementType::Tile1024)
    } else if tile_value == 2048 {
        Some(AchievementType::Tile2048)
    } else {
        None
    }
}

/// The score achievements in ascending order of their score.
pub open spec fn score_achievements() -> Seq<AchievementType> {
    seq![
        AchievementType::Score1000,
        AchievementType::Score3000,
        AchievementType::Score5000,
        AchievementType::Score7000,
        AchievementType::Score10000,
        AchievementType::Score15000,
        AchievementType::Score20000,
    ]
}

/// The score achievements among the first `k` that `score` reaches and that
/// `unlocked` lacks, in ascending order.
pub open spec fn score_unlocks_before(score: i32, unlocked: Set<AchievementType>, k: int) -> Seq<
    AchievementType,
>
    decreases k,
{
    if k <= 0 {
        seq![]
    } else {
        let p = score_unlocks_before(score, unlocked, k - 1);
        let a = score_achievements()[k - 1];
        if score >= achievement_value(a) && !unlocked.contains(a) {
            p.push(a)
        } else {
            p
        }
    }
}

/// The score achievements that `score` reaches and that `unlocked` lacks, in
/// ascending order.
pub open spec fn score_unlocks(score: i32, unlocked: Set<AchievementType>) -> Seq<AchievementType> {
    score_unlocks_before(score, unlocked, 7)
}


/// The tile achievement that `tile_value` newly unlocks given `unlocked`.
pub open spec fn tile_unlocks(tile_value: i32, unlocked: Set<AchievementType>) -> Seq<AchievementType> {
    match tile_achievement(tile_value) {
        Some(a) => if unlocked.contains(a) {
            seq![]
        } else {
            seq![a]
        },
        None => seq![],
    }
}

/// The score achievements among the first `k` that `score` reaches.
pub open spec fn score_reached_before(score: i32, k: int) -> Set<AchievementType> {
    Set::new(
        |a: AchievementType|
            exists|j: int| 0 <= j < k && #[trigger] score_achievements()[j] == a && score >= achievement_value(a),
    )
}

/// The score achievements that `score` reaches.
pub open spec fn score_reached(score: i32) -> Set<AchievementType> {
    score_reached_before(score, 7)
}

/// The number of `true` entries among the first `k` of `flags`.
pub open spec fn count_true(flags: Seq<bool>, k: int) -> nat
    decreases k,
{
    if k <= 0 {
        0
    } else {
        count_true(flags, k - 1) + if flags[k - 1] {
            1nat
        } else {
            0nat
        }
    }
}

proof fn lemma_score_unlocks_none(score: i32, set: Set<AchievementType>, k: int)
    requires
        0 <= k <= 7,
        forall|j: int| 0 <= j < k && score >= achievement_value(score_achievements()[j]) ==> set.contains(
            #[trigger] score_achievements()[j],
        ),
    ensures
        score_unlocks_before(score, set, k).len() == 0,
    decreases k,
{
    if k > 0 {
        lemma_score_unlocks_none(score, set, k - 1);
    }
}

/// Law: checking the same score or the same tile value a second time
/// unlocks nothing more.
pub proof fn lemma_checks_are_idempotent(set: Set<AchievementType>, score: i32, tile_value: i32)
    ensures
        score_unlocks(score, set.union(score_reached(score))).len() == 0,
        tile_unlocks(
            tile_value,
            match tile_achievement(tile_value) {
                Some(a) => set.insert(a),
                None => set,
            },
        ).len() == 0,
{
    let after = set.union(score_reached(score));
    assert forall|j: int| 0 <= j < 7 && score >= achievement_value(score_achievements()[j]) implies after.contains(
        #[trigger] score_achievements()[j],
    ) by {
        assert(score_reached(score).contains(score_achievements()[j]));
    }
    lemma_score_unlocks_none(score, after, 7);
}

/// The achievements that have been unlocked, and those unlocked since they
/// were last taken.
pub struct Achievements {
    unlocked: Vec<bool>,
    new_achievements: Vec<AchievementType>,
}

impl Achievements {
    /// The tracker's invariant: a flag for each of the 12 achievements, and
    /// each pending achievement unlocked and listed once.
    #[verifier::type_invariant]
    spec fn well_formed(&self) -> bool {
        &&& self.unlocked@.len() == 12
        &&& self.new_achievements@.no_duplicates()
        &&& forall|i: int|
            0 <= i < self.new_achievements@.len() ==> self.unlocked@[achievement_id(
                #[trigger] self.new_achievements@[i],
            ) as int]
    }

    /// The unlocked achievements.
    pub closed spec fn unlocked_set(&self) -> Set<AchievementType> {
        Set::new(|a: AchievementType| self.unlocked@[achievement_id(a) as int])
    }

    /// The achievements unlocked since they were last taken, in the order of
    /// unlocking.
    pub closed spec fn pending(&self) -> Seq<AchievementType> {
        self.new_achievements@
    }

    /// Pending achievements are unlocked and listed once each.
    pub open spec fn consistent(&self) -> bool {
        &&& self.pending().no_duplicates()
        &&& forall|i: int| 0 <= i < self.pending().len() ==> self.unlocked_set().contains(#[trigger] self.pending()[i])
    }

    /// A tracker holding the achievements named by the saved text `saved`
    /// (one achievement number per line, as `save_text` writes it), with none
    /// pending.
    pub fn new(saved: &str) -> (r: Achievements)
        ensures
            r.unlocked_set() == parse_saved(saved.spec_bytes()),
            r.pending() == Seq::<AchievementType>::empty(),
            r.consistent(),
    {
        let bytes = saved.as_bytes();
        let ghost s = bytes@;
        let mut unlocked: Vec<bool> = vec![false, false, false, false, false, false, false, false, false, false, false, false];
        let ghost mut done: Seq<Seq<u8>> = seq![];
        let mut start: usize = 0;
        let mut pos: usize = 0;
        assert(s.skip(0) =~= s);
        while pos < bytes.len()
            invariant
                s == bytes@,
                start <= pos <= s.len(),
                lines_of(s) == done + lines_of(s.skip(start as int)),
                forall|k: int| start <= k < pos ==> s[k] != newline(),
                unlocked@.len() == 12,
                forall|n: int|
                    0 <= n < 12 ==> (unlocked@[n] <==> exists|j: int|
                        0 <= j < done.len() && #[trigger] line_id(done[j]) == Some(n)),
            decreases s.len() - pos,
        {
            if bytes[pos] == 10 {
                let end = if pos > start && bytes[pos - 1] == 13 {
                    pos - 1
                } else {
                    pos
                };
                let ghost line = strip_carriage_return(s.subrange(start as int, pos as int));
                assert(s.subrange(start as int, end as int) =~= line);
                let ghost t = s.skip(start as int);
                proof {
                    lemma_first_newline_at(t, pos - start);
                }
                assert(t.take(pos - start) =~= s.subrange(start as int, pos as int));
                assert(t.skip(pos - start + 1) =~= s.skip(pos + 1));
                let found = line_number(bytes, start, end);
                let ghost old_done = done;
                proof {
                    done = done.push(line);
                }
                assert(lines_of(s) =~= done + lines_of(s.skip(pos + 1)));
                if let Some(n) = found {
                    unlocked[n] = true;
                }
                assert forall|m: int| 0 <= m < 12 implies (unlocked@[m] <==> exists|j: int|
                    0 <= j < done.len() && #[trigger] line_id(done[j]) == Some(m)) by {
                    if exists|j: int| 0 <= j < old_done.len() && #[trigger] line_id(old_done[j]) == Some(m) {
                        let j = choose|j: int| 0 <= j < old_done.len() && #[trigger] line_id(old_done[j]) == Some(m);
                        assert(done[j] == old_done[j]);
                    }
                    if exists|j: int| 0 <= j < done.len() && #[trigger] line_id(done[j]) == Some(m) {
                        let j = choose|j: int| 0 <= j < done.len() && #[trigger] line_id(done[j]) == Some(m);
                        if j < old_done.len() {
                            assert(old_done[j] == done[j]);
                        }
                    }
                    assert(done[old_done.len() as int] == line);
                }
                start = pos + 1;
            }
            pos = pos + 1;
        }
        if start < bytes.len() {
            let ghost t = s.skip(start as int);
            proof {
                lemma_first_newline_at(t, t.len() as int);
            }
            assert(t =~= s.subrange(start as int, s.len() as int));
            let found = line_number(bytes, start, bytes.len());
            let ghost old_done = done;
            proof {
                done = done.push(t);
            }
            assert(lines_of(s) =~= done);
            if let Some(n) = found {
                unlocked[n] = true;
            }
            assert forall|m: int| 0 <= m < 12 implies (unlocked@[m] <==> exists|j: int|
                0 <= j < done.len() && #[trigger] line_id(done[j]) == Some(m)) by {
                if exists|j: int| 0 <= j < old_done.len() && #[trigger] line_id(old_done[j]) == Some(m) {
                    let j = choose|j: int| 0 <= j < old_done.len() && #[trigger] line_id(old_done[j]) == Some(m);
                    assert(done[j] == old_done[j]);
                }
                if exists|j: int| 0 <= j < done.len() && #[trigger] line_id(done[j]) == Some(m) {
                    let j = choose|j: int| 0 <= j < done.len() && #[trigger] line_id(done[j]) == Some(m);
                    if j < old_done.len() {
                        assert(old_done[j] == done[j]);
                    }
                }
                assert(done[old_done.len() as int] == t);
            }
        } else {
            assert(s.skip(start as int) =~= Seq::<u8>::empty());
            assert(lines_of(s) =~= done);
        }
        let r = Achievements { unlocked, new_achievements: Vec::new() };
        assert(r.unlocked_set() =~= parse_saved(s)) by {
            assert forall|a: AchievementType| r.unlocked_set().contains(a) <==> parse_saved(s).contains(a) by {
                assert(achievement_id(a) < 12);
            }
        }
        r
    }

    /// Unlocks `a` and records it as pending, when it is not unlocked yet;
    /// returns whether it was newly unlocked.
    fn unlock(&mut self, a: AchievementType) -> (added: bool)
        ensures
            added == !old(self).unlocked_set().contains(a),
            final(self).unlocked_set() == old(self).unlocked_set().insert(a),
            final(self).pending() == (if added {
                old(self).pending().push(a)
            } else {
                old(self).pending()
            }),
            final(self).consistent(),
    {
        proof {
            use_type_invariant(&*self);
        }
        let id = a.id();
        if self.unlocked[id] {
            assert(self.unlocked_set().insert(a) =~= self.unlocked_set());
            return false;
        }
        let ghost before = *self;
        let mut spare = Achievements::fresh();
        std::mem::swap(self, &mut spare);
        let Achievements { mut unlocked, mut new_achievements } = spare;
        assert(unlocked@ == before.unlocked@ && new_achievements@ == before.new_achievements@);
        unlocked[id] = true;
        assert forall|i: int| 0 <= i < new_achievements@.len() implies !(new_achievements@[i] == a) by {
            assert(before.unlocked@[achievement_id(before.new_achievements@[i]) as int]);
        }
        new_achievements.push(a);
        assert forall|i: int| 0 <= i < new_achievements@.len() implies unlocked@[achievement_id(
            #[trigger] new_achievements@[i],
        ) as int] by {
            if i < before.new_achievements@.len() {
                assert(new_achievements@[i] == before.new_achievements@[i]);
                assert(before.unlocked@[achievement_id(before.new_achievements@[i]) as int]);
            }
        }
        *self = Achievements { unlocked, new_achievements };
        assert(self.unlocked_set() =~= before.unlocked_set().insert(a)) by {
            assert forall|b: AchievementType| #[trigger] self.unlocked_set().contains(b) == before.unlocked_set().insert(a).contains(b) by {
                if b != a {
                    assert(achievement_id(b) != achievement_id(a)) by {
                        lemma_id_round_trip(a);
                        lemma_id_round_trip(b);
                    }
                }
            }
        }
        true
    }

    /// A tracker with nothing unlocked and nothing pending.
    fn fresh() -> (r: Achievements)
        ensures
            r.unlocked_set() == Set::<AchievementType>::empty(),
            r.pending() == Seq::<AchievementType>::empty(),
    {
        let r = Achievements {
            unlocked: vec![false, false, false, false, false, false, false, false, false, false, false, false],
            new_achievements: Vec::new(),
        };
        assert(r.unlocked_set() =~= Set::<AchievementType>::empty()) by {
            assert forall|b: AchievementType| !#[trigger] r.unlocked_set().contains(b) by {
                assert(achievement_id(b) < 12);
            }
        }
        r
    }

    /// Unlocks the tile achievement for `tile_value` (128, 256, 512, 1024 or
    /// 2048) if it is not unlocked yet, and records it as pending. Returns
    /// whether anything was unlocked, that is whether the saved text has
    /// changed.
    pub fn check_tile_achievement(&mut self, tile_value: i32) -> (changed: bool)
        ensures
            final(self).consistent(),
            final(self).unlocked_set() == (match tile_achievement(tile_value) {
                Some(a) => old(self).unlocked_set().insert(a),
                None => old(self).unlocked_set(),
            }),
            final(self).pending() == old(self).pending() + tile_unlocks(tile_value, old(self).unlocked_set()),
            changed == (tile_unlocks(tile_value, old(self).unlocked_set()).len() > 0),
    {
        let achievement = match tile_value {
            128 => Some(AchievementType::Tile128),
            256 => Some(AchievementType::Tile256),
            512 => Some(AchievementType::Tile512),
            1024 => Some(AchievementType::Tile1024),
            2048 => Some(AchievementType::Tile2048),
            _ => None,
        };
        match achievement {
            Some(ach) => {
                let added = self.unlock(ach);
                if added {
                    assert(old(self).pending().push(ach) =~= old(self).pending() + seq![ach]);
                } else {
                    assert(old(self).pending() =~= old(self).pending() + Seq::<AchievementType>::empty());
                }
                added
            },
            None => {
                proof {
                    use_type_invariant(&*self);
                }
                assert(old(self).pending() =~= old(self).pending() + Seq::<AchievementType>::empty());
                false
            },
        }
    }

    /// Unlocks every score achievement whose score `score` reaches and that
    /// is not unlocked yet, recording them as pending in ascending order.
    /// Returns whether anything was unlocked, that is whether the saved text
    /// has changed.
    pub fn check_score_achievement(&mut self, score: i32) -> (changed: bool)
        ensures
            final(self).consistent(),
            final(self).unlocked_set() == old(self).unlocked_set().union(score_reached(score)),
            final(self).pending() == old(self).pending() + score_unlocks(score, old(self).unlocked_set()),
            changed == (score_unlocks(score, old(self).unlocked_set()).len() > 0),
    {
        let achievements = [
            AchievementType::Score1000,
            AchievementType::Score3000,
            AchievementType::Score5000,
            AchievementType::Score7000,
            AchievementType::Score10000,
            AchievementType::Score15000,
            AchievementType::Score20000,
        ];
        let ghost start_set = self.unlocked_set();
        let ghost start_pending = self.pending();
        let mut changed = false;
        let mut k: usize = 0;
        assert(start_set.union(score_reached_before(score, 0)) =~= start_set);
        assert(start_pending + score_unlocks_before(score, start_set, 0) =~= start_pending);
        while k < 7
            invariant
                k <= 7,
                achievements@ == score_achievements(),
                start_set == old(self).unlocked_set(),
                start_pending == old(self).pending(),
                self.unlocked_set() == start_set.union(score_reached_before(score, k as int)),
                self.pending() == start_pending + score_unlocks_before(score, start_set, k as int),
                changed == (score_unlocks_before(score, start_set, k as int).len() > 0),
            decreases 7 - k,
        {
            let achievement = achievements[k];
            let ghost before_set = self.unlocked_set();
            let ghost before_pending = self.pending();
            let reached = score >= achievement.get_value();
            let ghost in_start = start_set.contains(achievement);
            assert(before_set.contains(achievement) == in_start) by {
                if before_set.contains(achievement) && !in_start {
                    let j = choose|j: int| 0 <= j < k && #[trigger] score_achievements()[j] == achievement && score >= achievement_value(achievement);
                    assert(score_achievements()[j] != score_achievements()[k as int]);
                }
            }
            if reached {
                let added = self.unlock(achievement);
                if added {
                    changed = true;
                }
            }
            assert(score_reached_before(score, k + 1) =~= score_reached_before(score, k as int).union(
                if reached { set![achievement] } else { Set::empty() },
            )) by {
                assert forall|a: AchievementType| #[trigger] score_reached_before(score, k + 1).contains(a)
                    == score_reached_before(score, k as int).union(
                    if reached { set![achievement] } else { Set::empty() },
                ).contains(a) by {
                    if score_reached_before(score, k + 1).contains(a) {
                        let j = choose|j: int| 0 <= j < k + 1 && #[trigger] score_achievements()[j] == a && score >= achievement_value(a);
                        if j < k {
                            assert(score_reached_before(score, k as int).contains(a));
                        }
                    }
                    if score_reached_before(score, k as int).contains(a) {
                        let j = choose|j: int| 0 <= j < k && #[trigger] score_achievements()[j] == a && score >= achievement_value(a);
                        assert(score_reached_before(score, k + 1).contains(a));
                    }
                    if reached && a == achievement {
                        assert(score_achievements()[k as int] == a);
                        assert(score_reached_before(score, k + 1).contains(a));
                    }
                }
            }
            assert(self.unlocked_set() =~= start_set.union(score_reached_before(score, k + 1)));
            assert(self.pending() =~= start_pending + score_unlocks_before(score, start_set, k + 1));
            k = k + 1;
        }
        proof {
            use_type_invariant(&*self);
        }
        changed
    }

    /// Whether some achievement is pending.
    pub fn has_new_achievements(&self) -> (r: bool)
        ensures
            r == (self.pending().len() > 0),
    {
        !self.new_achievements.is_empty()
    }

    /// Takes the pending achievements, in the order of unlocking, leaving none
    /// pending.
    pub fn take_new_achievements(&mut self) -> (r: Vec<AchievementType>)
        ensures
            r@ == old(self).pending(),
            final(self).pending() == Seq::<AchievementType>::empty(),
            final(self).unlocked_set() == old(self).unlocked_set(),
            final(self).consistent(),
    {
        proof {
            use_type_invariant(&*self);
        }
        let mut spare = Achievements::fresh();
        std::mem::swap(self, &mut spare);
        let Achievements { unlocked, new_achievements } = spare;
        *self = Achievements { unlocked, new_achievements: Vec::new() };
        new_achievements
    }

    /// Whether `achievement` is unlocked.
    pub fn is_unlocked(&self, achievement: AchievementType) -> (r: bool)
        ensures
            r == self.unlocked_set().contains(achievement),
    {
        proof {
            use_type_invariant(self);
        }
        self.unlocked[achievement.id()]
    }

    /// All achievements, in the order in which they are listed.
    pub fn get_all_achievements() -> (r: Vec<AchievementType>)
        ensures
            r@ == all_achievements(),
    {
        let r = vec![
            AchievementType::Tile128,
            AchievementType::Tile256,
            AchievementType::Tile512,
            AchievementType::Tile1024,
            AchievementType::Tile2048,
            AchievementType::Score1000,
            AchievementType::Score3000,
            AchievementType::Score5000,
            AchievementType::Score7000,
            AchievementType::Score10000,
            AchievementType::Score15000,
            AchievementType::Score20000,
        ];
        assert(r@ =~= all_achievements());
        r
    }

    /// The number of achievements.
    pub fn get_total_count() -> (r: usize)
        ensures
            r == achievement_count(),
            r == all_achievements().len(),
    {
        12
    }

    /// The number of unlocked achievements.
    pub fn get_unlocked_count(&self) -> (r: usize)
        ensures
            r == self.unlocked_set().len(),
            r <= achievement_count(),
    {
        proof {
            use_type_invariant(self);
        }
        let mut count: usize = 0;
        let mut i: usize = 0;
        while i < 12
            invariant
                i <= 12,
                self.unlocked@.len() == 12,
                count == count_true(self.unlocked@, i as int),
                count <= i,
            decreases 12 - i,
        {
            if self.unlocked[i] {
                count = count + 1;
            }
            i = i + 1;
        }
        proof {
            lemma_count_set(self.unlocked@, 12);
            let s = Set::new(|a: AchievementType| achievement_id(a) < 12 && self.unlocked@[achievement_id(a) as int]);
            assert(s =~= self.unlocked_set());
        }
        count
    }

    /// The saved text of the unlocked achievements: the number of each
    /// (see `AchievementType::id`), in ascending order, one per line.
    pub fn save_text(&self) -> (r: Vec<u8>)
        ensures
            r@ == saved_text(self.unlocked_set()),
    {
        proof {
            use_type_invariant(self);
        }
        let ghost set = self.unlocked_set();
        let mut out: Vec<u8> = Vec::new();
        let mut i: usize = 0;
        while i < 12
            invariant
                i <= 12,
                self.unlocked@.len() == 12,
                set == self.unlocked_set(),
                out@ == join_lines(saved_lines_before(set, i as nat)),
            decreases 12 - i,
        {
            proof {
                lemma_of_id_round_trip(i as int);
            }
            if self.unlocked[i] {
                let ghost before = out@;
                if i < 10 {
                    out.push(48 + i as u8);
                } else {
                    out.push(49);
                    out.push(48 + (i - 10) as u8);
                }
                out.push(10);
                proof {
                    lemma_join_push(saved_lines_before(set, i as nat), id_digits(i as nat));
                }
                assert(out@ =~= before + id_digits(i as nat).push(newline()));
            }
            i = i + 1;
        }
        out
    }
}

/// Law: a tile value unlocks exactly the tile achievement that stands for
/// that value, and no tile value unlocks a score achievement.
pub proof fn lemma_tile_achievement_matches_value(v: i32, a: AchievementType)
    ensures
        tile_achievement(v) == Some(a) <==> (!achievement_is_score(a) && achievement_value(a) == v),
{
}

} // verus!
