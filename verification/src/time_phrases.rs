//! Which phrases the time grammar resolves: those that it reads without a count
//! too large for it and without leaving its calendar.

use crate::text;
use crate::text::{chars_of, join, split_pieces, strip_prefix, strip_suffix};
use crate::time::{days_in_month, Date};
use vstd::prelude::*;

verus! {

/// The first second of the calendar of the time grammar.
pub const CALENDAR_START: i64 = -8_334_601_228_800;

/// The last second of the calendar of the time grammar.
pub const CALENDAR_END: i64 = 8_210_266_876_799;

/// The seconds from the first second of the calendar to the last.
pub const CALENDAR_SPAN: i64 = 16_544_868_105_599;

/// The largest number that the time grammar reads.
pub const COUNT_MAX: u64 = 4_294_967_295;

/// How far from the epoch a year of five digits reaches, in seconds.
pub const YEAR_REACH: i64 = 3_300_000_000_000;

/// The seconds of two years.
pub const TWO_YEARS: i64 = 63_244_800;

// ---------------------------------------------------------------------------
// Words
// ---------------------------------------------------------------------------

/// A character as the words of a phrase are read: white space, periods and
/// commas part words, and letters are in lower case, with the two that fold to
/// ASCII ones.
pub open spec fn plain_char(c: char) -> char {
    if text::is_white_space(c) || c == '.' || c == ',' {
        ' '
    } else if c == '\u{17f}' {
        's'
    } else if c == '\u{212a}' {
        'k'
    } else {
        text::ascii_lower(c)
    }
}

/// A phrase as its words are read. A hyphen is a word of its own.
pub open spec fn plain(phrase: Seq<char>) -> Seq<char>
    decreases phrase.len(),
{
    if phrase.len() == 0 {
        Seq::empty()
    } else if phrase.last() == '-' {
        plain(phrase.drop_last()).push(' ').push('-').push(' ')
    } else {
        plain(phrase.drop_last()).push(plain_char(phrase.last()))
    }
}

/// The words of a phrase, in lower case.
pub open spec fn words(phrase: Seq<char>) -> Seq<Seq<char>> {
    text::pieces(plain(phrase), ' ')
}

/// The phrases that name the beginning of time.
pub open spec fn first_times() -> Seq<Seq<char>> {
    seq![
        "the beginning"@,
        "the beginning of time"@,
        "the first moment"@,
        "the start"@,
        "the very start"@,
        "the first instant"@,
        "the dawn of time"@,
        "the big bang"@,
        "the birth of the universe"@,
    ]
}

/// The phrases that name the end of time.
pub open spec fn last_times() -> Seq<Seq<char>> {
    seq![
        "the end"@,
        "the end of time"@,
        "the very end"@,
        "the last moment"@,
        "eternity"@,
        "infinity"@,
        "doomsday"@,
        "the crack of doom"@,
        "armageddon"@,
        "ragnarok"@,
        "the big crunch"@,
        "the heat death of the universe"@,
        "doom"@,
        "death"@,
        "perdition"@,
        "the last hurrah"@,
        "ever after"@,
        "the last syllable of recorded time"@,
    ]
}

/// The words that name a day relative to the reference, and fix it.
pub open spec fn adverbs() -> Seq<Seq<char>> {
    seq!["now"@, "today"@, "tomorrow"@, "yesterday"@]
}

/// The words that pick one of several periods.
pub open spec fn modifiers() -> Seq<Seq<char>> {
    seq!["the"@, "this"@, "last"@, "next"@]
}

/// The names of the months, each in full and by its first three letters.
pub open spec fn month_names() -> Seq<Seq<char>> {
    seq![
        "january"@,
        "jan"@,
        "february"@,
        "feb"@,
        "march"@,
        "mar"@,
        "april"@,
        "apr"@,
        "may"@,
        "may"@,
        "june"@,
        "jun"@,
        "july"@,
        "jul"@,
        "august"@,
        "aug"@,
        "september"@,
        "sep"@,
        "october"@,
        "oct"@,
        "november"@,
        "nov"@,
        "december"@,
        "dec"@,
    ]
}

/// The names of the weekdays, in full and shortened.
pub open spec fn weekdays() -> Seq<Seq<char>> {
    seq![
        "m"@,
        "t"@,
        "w"@,
        "r"@,
        "f"@,
        "s"@,
        "u"@,
        "sunday"@,
        "su"@,
        "sun"@,
        "monday"@,
        "mo"@,
        "mon"@,
        "tuesday"@,
        "tu"@,
        "tue"@,
        "wednesday"@,
        "we"@,
        "wed"@,
        "thursday"@,
        "th"@,
        "thu"@,
        "friday"@,
        "fr"@,
        "fri"@,
        "saturday"@,
        "sa"@,
        "sat"@,
        "tues"@,
        "weds"@,
        "thurs"@,
    ]
}

/// Whether two lists of texts share one.
pub open spec fn share(a: Seq<Seq<char>>, b: Seq<Seq<char>>) -> bool {
    exists|i: int| 0 <= i < a.len() && text::holds(b, #[trigger] a[i])
}

/// Whether a character can stand next to a letter inside a word.
pub open spec fn is_word_char(c: char) -> bool {
    'a' <= c <= 'z' || 'A' <= c <= 'Z' || '0' <= c <= '9' || c == '_'
}

/// Whether a letter stands alone at a position.
pub open spec fn alone_at(s: Seq<char>, c: char, at: int) -> bool {
    &&& 0 <= at < s.len()
    &&& s[at] == c
    &&& at > 0 ==> !is_word_char(s[at - 1])
    &&& at + 1 < s.len() ==> !is_word_char(s[at + 1])
}

/// The digits of a phrase, with blanks for everything else.
pub open spec fn digits_of(phrase: Seq<char>) -> Seq<char> {
    phrase.map_values(
        |c: char|
            if '0' <= c <= '9' {
                c
            } else {
                ' '
            },
    )
}

/// The numbers in a phrase, by their digits.
pub open spec fn numerals(phrase: Seq<char>) -> Seq<Seq<char>> {
    text::pieces(digits_of(phrase), ' ')
}

/// The value of a row of digits.
pub open spec fn value_of(digits: Seq<char>) -> nat
    decreases digits.len(),
{
    if digits.len() == 0 {
        0
    } else {
        (10 * value_of(digits.drop_last()) + (digits.last() as int - '0' as int)) as nat
    }
}

/// Whether a text is made of digits.
pub open spec fn only_digits(s: Seq<char>) -> bool {
    forall|i: int| 0 <= i < s.len() ==> '0' <= #[trigger] s[i] <= '9'
}

/// Whether a line starts with one of the listed texts.
pub open spec fn any_starts(s: Seq<char>, texts: Seq<Seq<char>>) -> bool {
    exists|i: int| 0 <= i < texts.len() && text::starts(s, #[trigger] texts[i])
}

// ---------------------------------------------------------------------------
// Amounts
// ---------------------------------------------------------------------------

/// The count that a word gives, or zero where it gives none. A number that is
/// too large to be read counts as one more than the largest.
pub open spec fn count_of(w: Seq<char>) -> nat {
    if w == "one"@ {
        1
    } else if w == "two"@ {
        2
    } else if w == "three"@ {
        3
    } else if w == "four"@ {
        4
    } else if w == "five"@ {
        5
    } else if w == "six"@ {
        6
    } else if w == "seven"@ {
        7
    } else if w == "eight"@ {
        8
    } else if w == "nine"@ {
        9
    } else if w == "ten"@ {
        10
    } else if w.len() == 0 || !only_digits(w) || w[0] == '0' {
        0
    } else if value_of(w) > COUNT_MAX {
        COUNT_MAX as nat + 1
    } else {
        value_of(w)
    }
}

/// The seconds of the unit that a word names, or zero where it names none.
pub open spec fn unit_of(w: Seq<char>) -> nat {
    if w == "week"@ || w == "weeks"@ {
        604_800
    } else if w == "day"@ || w == "days"@ {
        86_400
    } else if w == "hour"@ || w == "hours"@ {
        3_600
    } else if w == "minute"@ || w == "minutes"@ {
        60
    } else if w == "second"@ || w == "seconds"@ {
        1
    } else {
        0
    }
}

/// The seconds of the amount that starts at a word, or zero where none does.
pub open spec fn amount_at(all: Seq<Seq<char>>, at: int) -> nat {
    if 0 <= at && at + 1 < all.len() {
        count_of(all[at]) * unit_of(all[at + 1])
    } else {
        0
    }
}

/// Which way an amount leads.
#[derive(Clone, Copy, PartialEq, Eq, Structural)]
pub enum Shift {
    /// Nowhere: there is none.
    Still,
    /// Back.
    Back,
    /// Forward.
    Forward,
    /// Both ways.
    Both,
}

impl Shift {
    /// Whether it leads back.
    pub open spec fn leads_back(self) -> bool {
        self == Shift::Back || self == Shift::Both
    }

    /// Whether it leads forward.
    pub open spec fn leads_forward(self) -> bool {
        self == Shift::Forward || self == Shift::Both
    }
}

/// Whether the word at a position opens `before and after`.
pub open spec fn leads_around(all: Seq<Seq<char>>, at: int) -> bool {
    &&& 0 <= at
    &&& at + 2 < all.len()
    &&& all[at] == "before"@
    &&& all[at + 1] == "and"@
    &&& all[at + 2] == "after"@
}

/// Which way the words from a position on shift a moment.
pub open spec fn shift_at(all: Seq<Seq<char>>, at: int) -> Shift {
    if !(0 <= at < all.len()) {
        Shift::Still
    } else if leads_around(all, at) || all[at] == "around"@ {
        Shift::Both
    } else if all[at] == "before"@ {
        Shift::Back
    } else if all[at] == "after"@ {
        Shift::Forward
    } else {
        Shift::Still
    }
}

/// The position of what is shifted by the words from a position on.
pub open spec fn shifted_from(all: Seq<Seq<char>>, at: int) -> int {
    if leads_around(all, at) {
        at + 3
    } else {
        at + 1
    }
}

/// Which way the words from a position on lead from the present.
pub open spec fn turn_at(all: Seq<Seq<char>>, at: int) -> Shift {
    if !(0 <= at < all.len()) {
        Shift::Still
    } else if all[at] == "ago"@ {
        Shift::Back
    } else if all[at] == "from"@ {
        Shift::Forward
    } else {
        Shift::Still
    }
}

/// Whether a phrase runs from a moment up to the present. What shifts that
/// moment is not looked at.
pub open spec fn runs_to_now(all: Seq<Seq<char>>) -> bool {
    all.len() > 0 && (all[0] == "since"@ || all[0] == "after"@)
}

/// Which way the amount at a position leads from a moment near the reference or
/// near a year that the phrase names. One that shifts an end of time does not
/// lead from there.
pub open spec fn lead_at(all: Seq<Seq<char>>, at: int) -> Shift {
    if amount_at(all, at) == 0 {
        Shift::Still
    } else if turn_at(all, at + 2) != Shift::Still {
        turn_at(all, at + 2)
    } else if runs_to_now(all) || shift_at(all, at + 2) == Shift::Still {
        Shift::Still
    } else {
        let line = text::joined(all.skip(shifted_from(all, at + 2)), " "@);
        if any_starts(line, first_times()) || any_starts(line, last_times()) {
            Shift::Still
        } else {
            shift_at(all, at + 2)
        }
    }
}

/// The seconds that the amounts before position `n` lead back or forward.
pub open spec fn reach(all: Seq<Seq<char>>, back: bool, n: int) -> int
    decreases n,
{
    if n <= 0 {
        0
    } else {
        let lead = lead_at(all, n - 1);
        reach(all, back, n - 1) + if (back && lead.leads_back()) || (!back
            && lead.leads_forward()) {
            amount_at(all, n - 1) as int
        } else {
            0
        }
    }
}

/// Whether the amount at a position has a count that is too large to be read,
/// where it is read.
pub open spec fn overflows(all: Seq<Seq<char>>, at: int) -> bool {
    &&& amount_at(all, at) > 0
    &&& count_of(all[at]) > COUNT_MAX
    &&& runs_to_now(all) ==> turn_at(all, at + 2) != Shift::Still
}

// ---------------------------------------------------------------------------
// The calendar
// ---------------------------------------------------------------------------

/// Whether a list has a row of digits with a length in the given bounds.
pub open spec fn has_row(all: Seq<Seq<char>>, least: nat, most: nat) -> bool {
    exists|i: int| 0 <= i < all.len() && least <= (#[trigger] all[i]).len() <= most
}

/// Words that lead up to four years from the reference, besides the names of
/// months.
pub open spec fn long_periods() -> Seq<Seq<char>> {
    seq!["month"@, "year"@]
}

/// How far from the reference a phrase may lead besides by its amounts, in
/// seconds: 220 years where a year may lack its century, thirty where a day of
/// the month is searched for, four for other numbers and for months and years,
/// and otherwise less than one. A phrase is not resolved against a reference that
/// lies so close to an end of the calendar, also where its range would not have
/// left it.
pub open spec fn margin(phrase: Seq<char>) -> int {
    let all = words(phrase);
    let rows = numerals(phrase);
    if has_row(rows, 2, 2) {
        6_942_672_000
    } else if text::holds(all, "the"@) {
        1_000_000_000
    } else if rows.len() > 0 || share(all, month_names()) || share(all, long_periods()) {
        130_000_000
    } else {
        20_000_000
    }
}

/// Whether a phrase is an amount from the present: "3 days ago", "two weeks from
/// now".
pub open spec fn counts_from_now(all: Seq<Seq<char>>) -> bool {
    &&& amount_at(all, 0) > 0
    &&& (all.len() == 3 && all[2] == "ago"@) || (all.len() == 4 && all[2] == "from"@ && all[3]
        == "now"@)
}

/// The end of the period around a moment: a week from there, or the end of the
/// day, hour, minute or second that it lies in.
pub open spec fn period_end(at: int, unit: int) -> int {
    if unit == 604_800 {
        at + unit
    } else {
        at - at % unit + unit
    }
}

/// The first second that a named day leads to.
pub open spec fn named_start(word: Seq<char>, secs: int) -> int {
    if word == "yesterday"@ {
        secs - 86_400
    } else {
        secs
    }
}

/// The last second that a named day leads to. A moment in a leap second counts as
/// one second later when it is counted back from.
pub open spec fn named_end(word: Seq<char>, secs: int) -> int {
    if word == "now"@ {
        period_end(secs, 60)
    } else if word == "tomorrow"@ {
        period_end(secs + 86_400, 86_400)
    } else if word == "yesterday"@ {
        period_end(secs + 1 - 86_400, 86_400)
    } else {
        period_end(secs, 86_400)
    }
}

/// Whether the seconds from `first` to `last` lie in the calendar.
pub open spec fn in_calendar(first: int, last: int) -> bool {
    CALENDAR_START <= first && last <= CALENDAR_END
}

/// Whether a phrase stays within the calendar of the time grammar as far as its
/// numbers go: none is too large to be read, and neither the amounts nor the
/// years lead out of it.
pub open spec fn within_calendar(phrase: Seq<char>, secs: int) -> bool {
    let all = words(phrase);
    let years = if has_row(numerals(phrase), 0, 5) {
        YEAR_REACH as int
    } else {
        0
    };
    let low = if secs < -years {
        secs
    } else {
        -years
    };
    let high = if secs > years {
        secs
    } else {
        years
    };
    &&& in_calendar(secs, secs)
    &&& !(exists|at: int| #[trigger] overflows(all, at))
    &&& if all.len() == 1 && text::holds(adverbs(), all[0]) {
        in_calendar(named_start(all[0], secs), named_end(all[0], secs))
    } else if counts_from_now(all) {
        let at = if all.len() == 3 {
            secs - amount_at(all, 0)
        } else {
            secs + amount_at(all, 0)
        };
        in_calendar(at, period_end(at + 1, unit_of(all[1]) as int))
    } else {
        in_calendar(
            low - margin(phrase) - reach(all, true, all.len() as int),
            high + margin(phrase) + reach(all, false, all.len() as int),
        )
    }
}

// ---------------------------------------------------------------------------
// The ends of time
// ---------------------------------------------------------------------------

/// One side of a range, or a moment by itself.
pub struct Side {
    /// The seconds by which it is shifted.
    pub amount: int,
    /// Which way it is shifted.
    pub shift: Shift,
    /// The words of what is shifted.
    pub core: Seq<Seq<char>>,
}

/// The side that some words spell.
pub open spec fn side_of(all: Seq<Seq<char>>) -> Side {
    if amount_at(all, 0) > 0 && shift_at(all, 2) != Shift::Still {
        Side {
            amount: amount_at(all, 0) as int,
            shift: shift_at(all, 2),
            core: all.skip(shifted_from(all, 2)),
        }
    } else {
        Side { amount: 0, shift: Shift::Still, core: all }
    }
}

impl Side {
    /// Whether it is the beginning of time, or shifted from there.
    pub open spec fn is_first(self) -> bool {
        text::holds(first_times(), text::joined(self.core, " "@))
    }

    /// Whether it is the end of time, or shifted from there.
    pub open spec fn is_last(self) -> bool {
        text::holds(last_times(), text::joined(self.core, " "@))
    }

    /// Whether it is an end of time that is shifted out of the calendar.
    pub open spec fn is_out(self) -> bool {
        ||| self.is_first() && (self.shift.leads_back() || self.amount > CALENDAR_SPAN - 60)
        ||| self.is_last() && (self.shift.leads_forward() || self.amount > CALENDAR_SPAN)
    }
}

/// What a side of a range is counted from the other side by.
pub enum Kind {
    /// A weekday, with or without a time of day.
    Weekday,
    /// A time of day, in seconds.
    Clock(int),
    /// Midnight, the first second of the next day.
    Midnight,
    /// A month, from one on.
    Month(int),
    /// A day in a month.
    Day(int),
    /// None of these.
    Other,
}

/// Whether a weekday closes a list of words, or the time of day behind it does,
/// and no word picks which one it is. The `m` of `a.m.` is none.
pub open spec fn weekday_closes(all: Seq<Seq<char>>, at: int) -> bool {
    &&& 0 <= at < all.len()
    &&& text::holds(weekdays(), all[at])
    &&& at + 1 == all.len() || all[at + 1] == "at"@
    &&& at > 0 ==> !text::holds(modifiers(), all[at - 1])
    &&& at > 0 && all[at] == "m"@ ==> !text::ends(all[at - 1], "a"@) && !text::ends(
        all[at - 1],
        "p"@,
    )
}

/// The words that tell the halves of a day apart, and their pieces.
pub open spec fn half_words() -> Seq<Seq<char>> {
    seq!["am"@, "pm"@, "a"@, "p"@, "m"@]
}

/// The value of the part of a time at a position, zero where it is left out.
pub open spec fn part_at(parts: Seq<Seq<char>>, at: int) -> int {
    if at < parts.len() {
        value_of(parts[at]) as int
    } else {
        0
    }
}

/// The second of the day that an hour, a minute and a second give. The twelfth
/// hour after noon and the twenty-fourth are the first of the day.
pub open spec fn seconds_of(parts: Seq<Seq<char>>, late: bool) -> Option<int> {
    let hour = part_at(parts, 0) + if late {
        12int
    } else {
        0
    };
    if !(1 <= parts.len() <= 3) || exists|i: int|
        0 <= i < parts.len() && ((#[trigger] parts[i]).len() > 2 || !only_digits(parts[i])) {
        None
    } else if hour > 24 || part_at(parts, 1) > 59 || part_at(parts, 2) > 59 {
        None
    } else {
        Some(
            (if hour == 24 {
                0
            } else {
                hour * 3_600
            }) + part_at(parts, 1) * 60 + part_at(parts, 2),
        )
    }
}

/// The second of the day that some words spell, where they spell one.
pub open spec fn clock_of(core: Seq<Seq<char>>) -> Option<int> {
    let line = text::joined(core, ""@);
    if exists|i: int| 0 < i < core.len() && !text::holds(half_words(), #[trigger] core[i]) {
        None
    } else if line == "noon"@ {
        Some(43_200)
    } else if text::ends(line, "am"@) {
        seconds_of(text::pieces(line.take(line.len() - 2), ':'), false)
    } else if text::ends(line, "pm"@) {
        seconds_of(text::pieces(line.take(line.len() - 2), ':'), true)
    } else {
        seconds_of(text::pieces(line, ':'), false)
    }
}

/// The month that one of the first `n` names of months stands for, from one on,
/// or zero where `w` is none of them.
pub open spec fn month_of(w: Seq<char>, n: int) -> int
    decreases n,
{
    if n <= 0 {
        0
    } else if month_names()[n - 1] == w {
        (n - 1) / 2 + 1
    } else {
        month_of(w, n - 1)
    }
}

/// The month that one of the first `n` words names, from one on, or zero where
/// none does.
pub open spec fn month_in(core: Seq<Seq<char>>, n: int) -> int
    decreases n,
{
    if n <= 0 {
        0
    } else if month_of(core[n - 1], 24) > 0 {
        month_of(core[n - 1], 24)
    } else {
        month_in(core, n - 1)
    }
}

/// What a side is counted by.
pub open spec fn kind_of(core: Seq<Seq<char>>) -> Kind {
    if exists|at: int| #[trigger] weekday_closes(core, at) {
        Kind::Weekday
    } else if core.len() == 1 && core[0] == "midnight"@ {
        Kind::Midnight
    } else if core.len() == 1 && month_of(core[0], 24) > 0 {
        Kind::Month(month_of(core[0], 24))
    } else if month_in(core, core.len() as int) > 0 {
        Kind::Day(month_in(core, core.len() as int))
    } else {
        match clock_of(core) {
            Some(s) => Kind::Clock(s),
            None => Kind::Other,
        }
    }
}

/// Whether a word holds the number of a year, or a date with its year.
pub open spec fn has_year(w: Seq<char>) -> bool {
    &&& !w.contains(':')
    &&& numerals(w).len() >= 3 || exists|i: int|
        0 <= i < numerals(w).len() && (#[trigger] numerals(w)[i]).len() >= 3
}

/// Words of which one stands in every moment that is given from the present.
pub open spec fn present_words() -> Seq<Seq<char>> {
    seq!["now"@, "today"@, "tomorrow"@, "yesterday"@, "ago"@]
}

/// Whether some words name a moment by itself, or a day by its number alone,
/// which is sought from the reference.
pub open spec fn is_fixed(core: Seq<Seq<char>>) -> bool {
    ||| share(core, present_words())
    ||| text::holds(core, "the"@) && month_in(core, core.len() as int) == 0
    ||| exists|i: int| 0 <= i < core.len() && has_year(#[trigger] core[i])
}

/// The seconds that lie between the beginning of time and a side that is counted
/// from there, at the least.
pub open spec fn early(kind: Kind) -> int {
    match kind {
        Kind::Clock(s) => s,
        Kind::Day(m) => (m - 1) * 2_419_200,
        _ => 0,
    }
}

/// The seconds that lie between a side that is counted from the end of time and
/// there, at the least.
pub open spec fn late(kind: Kind) -> int {
    match kind {
        Kind::Weekday => 86_390,
        Kind::Clock(s) => 86_398 - s,
        _ => 0,
    }
}

/// Whether a moment that lies `depth` seconds inside the calendar can be shifted
/// further inside by an amount.
pub open spec fn has_room(depth: int, amount: int) -> bool {
    depth + amount + TWO_YEARS <= CALENDAR_SPAN
}

/// Whether a side cannot be counted from a moment that lies `depth` seconds
/// before the end of time: nothing comes after that.
pub open spec fn fails_behind_end(side: Side, depth: int) -> bool {
    &&& !is_fixed(side.core)
    &&& depth < TWO_YEARS + (if side.shift.leads_forward() {
        side.amount
    } else {
        0
    }) || !has_room(depth, side.amount)
}

/// Whether a side cannot be counted from a moment that lies `depth` seconds
/// behind the beginning of time: a weekday is sought from the week before, and
/// what is shifted back may leave the calendar.
pub open spec fn fails_behind_beginning(side: Side, depth: int) -> bool {
    let kind = kind_of(side.core);
    &&& !is_fixed(side.core)
    &&& kind is Weekday && depth < 604_800 || side.shift.leads_back() && side.amount > early(kind)
        && side.amount > depth - 31_622_400 || !has_room(depth, side.amount)
}

/// Whether the last moment of a kind before one that lies `depth` seconds behind
/// the beginning of time would come before that.
pub open spec fn precedes_time(kind: Kind, depth: int) -> bool {
    match kind {
        Kind::Weekday => depth < 604_800,
        Kind::Clock(s) => depth < s && depth < 86_400,
        Kind::Month(m) => depth <= (m - 1) * 2_678_400,
        _ => false,
    }
}

/// Whether a side cannot be counted back from a moment that lies `depth` seconds
/// behind the beginning of time.
pub open spec fn fails_before_beginning(side: Side, depth: int) -> bool {
    let kind = kind_of(side.core);
    &&& !(kind is Other || kind is Day)
    &&& precedes_time(kind, depth) || side.shift.leads_back() && side.amount > early(kind)
        && side.amount > depth - 31_622_400 || !has_room(depth, side.amount)
}

/// Whether the last moment of a kind before one that lies `depth` seconds before
/// the end of time is in the period that closes it.
pub open spec fn closes_time(kind: Kind, depth: int) -> bool {
    match kind {
        Kind::Clock(s) => s == 86_399 && depth == 0,
        Kind::Midnight => depth < 86_400,
        Kind::Month(m) => m == 12 && depth < 2_678_400,
        _ => false,
    }
}

/// Whether a side cannot be counted back from a moment that lies `depth` seconds
/// before the end of time.
pub open spec fn fails_before_end(side: Side, depth: int) -> bool {
    let kind = kind_of(side.core);
    &&& !(kind is Other || kind is Day)
    &&& closes_time(kind, depth) || side.shift.leads_forward() && side.amount > late(kind)
        && side.amount > depth - 2_764_800 || !has_room(depth, side.amount)
}

/// How far behind the beginning of time a side ends that is shifted from there
/// or, where a range includes it, is the first minute.
pub open spec fn first_depth(side: Side, through: bool) -> int {
    if side.amount > 0 {
        side.amount + 60
    } else if through {
        60
    } else {
        0
    }
}

/// Whether a range has an end of time as one of its sides, and the other side
/// cannot be counted from there.
pub open spec fn sides_clash(left: Side, right: Side, through: bool) -> bool {
    if left.is_out() || right.is_out() {
        true
    } else if (left.is_first() || left.is_last()) && (right.is_first() || right.is_last()) {
        false
    } else if left.is_last() {
        fails_behind_end(right, left.amount)
    } else if left.is_first() {
        fails_behind_beginning(right, left.amount)
    } else if right.is_first() {
        fails_before_beginning(left, first_depth(right, through))
    } else if right.is_last() {
        fails_before_end(left, right.amount)
    } else {
        false
    }
}

/// Whether a word joins the two sides of a range.
pub open spec fn joins(w: Seq<char>) -> bool {
    w == "to"@ || w == "until"@ || w == "till"@ || w == "through"@ || w == "thru"@ || w == "-"@
}

/// How many words stand before a joining word at position `at`, without the
/// hyphens and the `up` that go with it.
pub open spec fn left_end(all: Seq<Seq<char>>, at: int) -> int
    decreases at,
{
    if 0 < at <= all.len() && (all[at - 1] == "-"@ || all[at - 1] == "up"@) {
        left_end(all, at - 1)
    } else {
        at
    }
}

/// Where the words behind a joining word start, without the hyphens that go with
/// it.
pub open spec fn right_start(all: Seq<Seq<char>>, at: int) -> int
    decreases all.len() - at,
{
    if 0 <= at < all.len() && all[at] == "-"@ {
        right_start(all, at + 1)
    } else {
        at
    }
}

/// Whether the two sides of the word at a position clash.
pub open spec fn clash_at(all: Seq<Seq<char>>, at: int) -> bool {
    &&& 0 <= at < all.len()
    &&& joins(all[at])
    &&& sides_clash(
        side_of(all.take(left_end(all, at))),
        side_of(all.skip(right_start(all, at + 1))),
        all[at] == "through"@ || all[at] == "thru"@ || all[at] == "-"@,
    )
}

/// The words of a range without the `from` before it.
pub open spec fn range_words(all: Seq<Seq<char>>) -> Seq<Seq<char>> {
    if all.len() > 0 && all[0] == "from"@ {
        all.drop_first()
    } else {
        all
    }
}

/// Whether a phrase sets the beginning or the end of time in relation to
/// something that would carry it out of the calendar.
pub open spec fn leaves_calendar(all: Seq<Seq<char>>) -> bool {
    &&& !runs_to_now(all)
    &&& side_of(range_words(all)).is_out() || exists|at: int| #[trigger]
        clash_at(range_words(all), at)
}

// ---------------------------------------------------------------------------
// Letters and months
// ---------------------------------------------------------------------------

/// Whether a character is an ASCII letter.
pub open spec fn is_letter(c: char) -> bool {
    'a' <= c <= 'z' || 'A' <= c <= 'Z'
}

/// Whether a word at a position starts with a long s and is not known by that
/// letter: a weekday, September, the unit of an amount from the present, or the
/// ending of a number.
pub open spec fn long_s_at(phrase: Seq<char>, at: int) -> bool {
    &&& 0 <= at < phrase.len()
    &&& phrase[at] == '\u{17f}'
    &&& at > 0 ==> !is_letter(phrase[at - 1])
    &&& {
        let rest = plain(phrase.skip(at + 1));
        let behind = turn_at(words(phrase.skip(at + 1)), 1);
        ||| at > 0 && '0' <= phrase[at - 1] <= '9'
        ||| text::starts(rest, "u"@)
        ||| text::starts(rest, "a"@)
        ||| text::starts(rest, "ep"@)
        ||| text::starts(rest, "econd"@) && behind != Shift::Still
    }
}

/// Whether the word after position `at` names a month in which a day of the
/// month does not occur, behind a word that picks a period.
pub open spec fn month_lacks(all: Seq<Seq<char>>, date: Date, at: int) -> bool {
    &&& 0 <= at
    &&& at + 1 < all.len()
    &&& text::holds(modifiers(), all[at])
    &&& exists|m: int| 0 <= m < 24 && #[trigger] month_names()[m] == all[at + 1]
        && crate::time::month_days(date.year as int, m / 2 + 1) < date.day
}

/// Whether the time grammar resolves a phrase against a reference on the given
/// day without leaving what it covers. It does not cover the weekday letter `R`,
/// some words that start with a long s, the ends of time shifted out of the
/// calendar, and a month picked on a day that it does not have.
pub open spec fn covered(phrase: Seq<char>, date: Date) -> bool {
    &&& !(exists|at: int| #[trigger] long_s_at(phrase, at))
    &&& !(exists|at: int| #[trigger] alone_at(phrase, 'R', at))
    &&& !leaves_calendar(words(phrase))
    &&& !(exists|at: int| #[trigger] month_lacks(words(phrase), date, at))
}

// ---------------------------------------------------------------------------
// Reading the words
// ---------------------------------------------------------------------------

/// The characters of each text of a list.
pub open spec fn str_views(v: Seq<&'static str>) -> Seq<Seq<char>> {
    v.map_values(|t: &'static str| t@)
}

fn first_time_list() -> (r: Vec<&'static str>)
    ensures
        str_views(r@) == first_times(),
{
    let r: Vec<&'static str> = vec![
        "the beginning",
        "the beginning of time",
        "the first moment",
        "the start",
        "the very start",
        "the first instant",
        "the dawn of time",
        "the big bang",
        "the birth of the universe",
    ];
    assert(str_views(r@) =~= first_times());
    r
}

fn last_time_list() -> (r: Vec<&'static str>)
    ensures
        str_views(r@) == last_times(),
{
    let r: Vec<&'static str> = vec![
        "the end",
        "the end of time",
        "the very end",
        "the last moment",
        "eternity",
        "infinity",
        "doomsday",
        "the crack of doom",
        "armageddon",
        "ragnarok",
        "the big crunch",
        "the heat death of the universe",
        "doom",
        "death",
        "perdition",
        "the last hurrah",
        "ever after",
        "the last syllable of recorded time",
    ];
    assert(str_views(r@) =~= last_times());
    r
}

fn adverb_list() -> (r: Vec<&'static str>)
    ensures
        str_views(r@) == adverbs(),
{
    let r: Vec<&'static str> = vec![
        "now",
        "today",
        "tomorrow",
        "yesterday",
    ];
    assert(str_views(r@) =~= adverbs());
    r
}

fn modifier_list() -> (r: Vec<&'static str>)
    ensures
        str_views(r@) == modifiers(),
{
    let r: Vec<&'static str> = vec![
        "the",
        "this",
        "last",
        "next",
    ];
    assert(str_views(r@) =~= modifiers());
    r
}

fn month_list() -> (r: Vec<&'static str>)
    ensures
        str_views(r@) == month_names(),
{
    let r: Vec<&'static str> = vec![
        "january",
        "jan",
        "february",
        "feb",
        "march",
        "mar",
        "april",
        "apr",
        "may",
        "may",
        "june",
        "jun",
        "july",
        "jul",
        "august",
        "aug",
        "september",
        "sep",
        "october",
        "oct",
        "november",
        "nov",
        "december",
        "dec",
    ];
    assert(str_views(r@) =~= month_names());
    r
}

fn weekday_list() -> (r: Vec<&'static str>)
    ensures
        str_views(r@) == weekdays(),
{
    let r: Vec<&'static str> = vec![
        "m",
        "t",
        "w",
        "r",
        "f",
        "s",
        "u",
        "sunday",
        "su",
        "sun",
        "monday",
        "mo",
        "mon",
        "tuesday",
        "tu",
        "tue",
        "wednesday",
        "we",
        "wed",
        "thursday",
        "th",
        "thu",
        "friday",
        "fr",
        "fri",
        "saturday",
        "sa",
        "sat",
        "tues",
        "weds",
        "thurs",
    ];
    assert(str_views(r@) =~= weekdays());
    r
}

fn shares(all: &Vec<String>, texts: &Vec<&'static str>) -> (r: bool)
    ensures
        r == share(text::views(all@), str_views(texts@)),
{
    let mut i: usize = 0;
    while i < all.len()
        invariant
            i <= all@.len(),
            forall|k: int|
                0 <= k < i ==> !text::holds(str_views(texts@), #[trigger] text::views(all@)[k]),
        decreases all.len() - i,
    {
        if listed(texts, all[i].as_str()) {
            assert(text::views(all@)[i as int] == all@[i as int]@);
            return true;
        }
        i += 1;
    }
    false
}

fn listed(texts: &Vec<&'static str>, t: &str) -> (r: bool)
    ensures
        r == text::holds(str_views(texts@), t@),
{
    let mut i: usize = 0;
    while i < texts.len()
        invariant
            i <= texts@.len(),
            forall|k: int| 0 <= k < i ==> #[trigger] str_views(texts@)[k] != t@,
        decreases texts.len() - i,
    {
        if text::same(texts[i], t) {
            assert(str_views(texts@)[i as int] == t@);
            return true;
        }
        i += 1;
    }
    false
}

fn word_char(c: char) -> (r: bool)
    ensures
        r == is_word_char(c),
{
    ('a' <= c && c <= 'z') || ('A' <= c && c <= 'Z') || ('0' <= c && c <= '9') || c == '_'
}

fn stands_alone(s: &Vec<char>, c: char) -> (r: bool)
    ensures
        r == exists|at: int| #[trigger] alone_at(s@, c, at),
{
    let mut at: usize = 0;
    while at < s.len()
        invariant
            at <= s@.len(),
            forall|k: int| 0 <= k < at ==> !#[trigger] alone_at(s@, c, k),
        decreases s.len() - at,
    {
        if s[at] == c && (at == 0 || !word_char(s[at - 1])) && (at + 1 == s.len() || !word_char(
            s[at + 1],
        )) {
            assert(alone_at(s@, c, at as int));
            return true;
        }
        at += 1;
    }
    false
}

fn starts_any(s: &str, texts: &Vec<&'static str>) -> (r: bool)
    ensures
        r == any_starts(s@, str_views(texts@)),
{
    let mut i: usize = 0;
    while i < texts.len()
        invariant
            i <= texts@.len(),
            forall|k: int| 0 <= k < i ==> !text::starts(s@, #[trigger] str_views(texts@)[k]),
        decreases texts.len() - i,
    {
        assert(str_views(texts@)[i as int] == texts@[i as int]@);
        if strip_prefix(s, texts[i]).is_some() {
            return true;
        }
        i += 1;
    }
    false
}

fn numerals_of(phrase: &Vec<char>) -> (r: Vec<String>)
    ensures
        text::views(r@) == numerals(phrase@),
{
    let mut line: String = String::new();
    let mut i: usize = 0;
    while i < phrase.len()
        invariant
            i <= phrase@.len(),
            line@ == digits_of(phrase@.take(i as int)),
        decreases phrase.len() - i,
    {
        let c: char = phrase[i];
        let d: char = if '0' <= c && c <= '9' {
            c
        } else {
            ' '
        };
        assert(digits_of(phrase@.take(i + 1)) =~= digits_of(phrase@.take(i as int)).push(d));
        line.push(d);
        i += 1;
    }
    assert(phrase@.take(i as int) =~= phrase@);
    split_pieces(line.as_str(), ' ')
}

proof fn lemma_value_grows(s: Seq<char>, n: int)
    requires
        only_digits(s),
        0 <= n <= s.len(),
    ensures
        value_of(s.take(n)) <= value_of(s),
    decreases s.len() - n,
{
    if n < s.len() {
        lemma_value_grows(s, n + 1);
        assert(s.take(n + 1).drop_last() =~= s.take(n));
        assert(s.take(n + 1).last() == s[n]);
    } else {
        assert(s.take(n) =~= s);
    }
}

fn lacks_day(all: &Vec<String>, date: Date) -> (r: bool)
    requires
        date.valid(),
    ensures
        r == exists|at: int| #[trigger] month_lacks(text::views(all@), date, at),
{
    let picks: Vec<&'static str> = modifier_list();
    let months: Vec<&'static str> = month_list();
    assert(str_views(months@).len() == 24);
    let size: usize = all.len();
    let mut at: usize = 0;
    while at < size && size - at > 1
        invariant
            at <= size,
            size == all@.len(),
            date.valid(),
            str_views(picks@) == modifiers(),
            str_views(months@) == month_names(),
            months@.len() == 24,
            forall|k: int| 0 <= k < at ==> !#[trigger] month_lacks(text::views(all@), date, k),
        decreases size - at,
    {
        let ghost seen = text::views(all@);
        if listed(&picks, all[at].as_str()) {
            let mut m: usize = 0;
            while m < months.len()
                invariant
                    m <= months@.len(),
                    at + 1 < size,
                    size == all@.len(),
                    seen == text::views(all@),
                    date.valid(),
                    months@.len() == 24,
                    str_views(months@) == month_names(),
                    text::holds(modifiers(), seen[at as int]),
                    forall|k: int|
                        0 <= k < m && #[trigger] month_names()[k] == seen[at + 1]
                            ==> crate::time::month_days(date.year as int, k / 2 + 1) >= date.day,
                decreases months.len() - m,
            {
                assert(str_views(months@)[m as int] == month_names()[m as int]);
                if text::same(months[m], all[at + 1].as_str()) && days_in_month(
                    date.year,
                    (m / 2 + 1) as u32,
                ) < date.day {
                    assert(month_lacks(seen, date, at as int));
                    return true;
                }
                m += 1;
            }
        }
        assert(!month_lacks(seen, date, at as int));
        at += 1;
    }
    false
}

fn words_of(phrase: &Vec<char>) -> (r: Vec<String>)
    ensures
        text::views(r@) == words(phrase@),
{
    split_pieces(plain_line(phrase, 0).as_str(), ' ')
}

/// A phrase from a position on, as its words are read.
fn plain_line(phrase: &Vec<char>, from: usize) -> (line: String)
    requires
        from <= phrase@.len(),
    ensures
        line@ == plain(phrase@.skip(from as int)),
        from == 0 ==> line@ == plain(phrase@),
{
    let ghost rest = phrase@.skip(from as int);
    let mut line: String = String::new();
    let mut i: usize = from;
    while i < phrase.len()
        invariant
            from <= i <= phrase@.len(),
            rest == phrase@.skip(from as int),
            line@ == plain(rest.take(i - from)),
        decreases phrase.len() - i,
    {
        let c: char = phrase[i];
        proof {
            assert(rest.take(i + 1 - from).drop_last() =~= rest.take(i - from));
            assert(rest.take(i + 1 - from).last() == c);
        }
        if c == '-' {
            line.push(' ');
            line.push('-');
            line.push(' ');
        } else if text::white_space(c) || c == '.' || c == ',' {
            line.push(' ');
        } else if c == '\u{17f}' {
            line.push('s');
        } else if c == '\u{212a}' {
            line.push('k');
        } else {
            line.push(text::lower_char(c));
        }
        i += 1;
    }
    assert(rest.take(i - from) =~= rest);
    assert(from == 0 ==> rest =~= phrase@);
    line
}

fn is_word(all: &Vec<String>, at: usize, w: &str) -> (r: bool)
    ensures
        r == (at < all@.len() && text::views(all@)[at as int] == w@),
{
    at < all.len() && text::same(all[at].as_str(), w)
}

/// The words from a position up to another.
fn words_between(all: &Vec<String>, from: usize, to: usize) -> (r: Vec<String>)
    requires
        from <= to <= all@.len(),
    ensures
        text::views(r@) == text::views(all@).subrange(from as int, to as int),
{
    let ghost part = text::views(all@).subrange(from as int, to as int);
    let mut out: Vec<String> = Vec::new();
    let mut i: usize = from;
    assert(text::views(out@) =~= part.take(0));
    while i < to
        invariant
            from <= i <= to <= all@.len(),
            part == text::views(all@).subrange(from as int, to as int),
            text::views(out@) == part.take(i - from),
        decreases to - i,
    {
        let ghost before = text::views(out@);
        out.push(all[i].clone());
        proof {
            assert(text::views(out@) =~= before.push(all@[i as int]@));
            assert(part.take(i + 1 - from) =~= part.take(i - from).push(part[i - from]));
        }
        i += 1;
    }
    assert(part.take(i - from) =~= part);
    out
}

/// The words from a position on.
fn words_from(all: &Vec<String>, from: usize) -> (r: Vec<String>)
    requires
        from <= all@.len(),
    ensures
        text::views(r@) == text::views(all@).skip(from as int),
{
    let r: Vec<String> = words_between(all, from, all.len());
    assert(text::views(r@) =~= text::views(all@).skip(from as int));
    r
}

fn digits_only(sc: &Vec<char>) -> (r: bool)
    ensures
        r == only_digits(sc@),
{
    let mut i: usize = 0;
    while i < sc.len()
        invariant
            i <= sc@.len(),
            forall|k: int| 0 <= k < i ==> '0' <= #[trigger] sc@[k] <= '9',
        decreases sc.len() - i,
    {
        if sc[i] < '0' || sc[i] > '9' {
            return false;
        }
        i += 1;
    }
    true
}

/// Reads a row of digits, up to one more than the largest number.
fn read_value(digits: &Vec<char>) -> (r: u64)
    requires
        only_digits(digits@),
    ensures
        r <= COUNT_MAX + 1,
        r <= COUNT_MAX ==> r == value_of(digits@),
        r > COUNT_MAX ==> value_of(digits@) > COUNT_MAX,
{
    let mut v: u64 = 0;
    let mut i: usize = 0;
    assert(digits@.take(0) =~= Seq::empty());
    while i < digits.len()
        invariant
            i <= digits@.len(),
            only_digits(digits@),
            v == value_of(digits@.take(i as int)),
            v <= COUNT_MAX,
        decreases digits.len() - i,
    {
        assert(digits@.take(i + 1).drop_last() =~= digits@.take(i as int));
        assert('0' <= digits@[i as int] <= '9');
        let d: u64 = (digits[i] as u32 - 48) as u64;
        v = 10 * v + d;
        assert(v == value_of(digits@.take(i + 1)));
        if v > COUNT_MAX {
            proof {
                lemma_value_grows(digits@, i + 1);
            }
            return COUNT_MAX + 1;
        }
        i += 1;
    }
    assert(digits@.take(i as int) =~= digits@);
    v
}

fn read_count(w: &str) -> (r: i64)
    ensures
        r == count_of(w@),
        0 <= r <= COUNT_MAX + 1,
{
    if text::same(w, "one") {
        1
    } else if text::same(w, "two") {
        2
    } else if text::same(w, "three") {
        3
    } else if text::same(w, "four") {
        4
    } else if text::same(w, "five") {
        5
    } else if text::same(w, "six") {
        6
    } else if text::same(w, "seven") {
        7
    } else if text::same(w, "eight") {
        8
    } else if text::same(w, "nine") {
        9
    } else if text::same(w, "ten") {
        10
    } else {
        let sc: Vec<char> = chars_of(w);
        if sc.len() == 0 || !digits_only(&sc) || sc[0] == '0' {
            0
        } else {
            read_value(&sc) as i64
        }
    }
}

fn read_unit(w: &str) -> (r: i64)
    ensures
        r == unit_of(w@),
        r == 604_800 || r == 86_400 || r == 3_600 || r == 60 || r == 1 || r == 0,
{
    if text::same(w, "week") || text::same(w, "weeks") {
        604_800
    } else if text::same(w, "day") || text::same(w, "days") {
        86_400
    } else if text::same(w, "hour") || text::same(w, "hours") {
        3_600
    } else if text::same(w, "minute") || text::same(w, "minutes") {
        60
    } else if text::same(w, "second") || text::same(w, "seconds") {
        1
    } else {
        0
    }
}

fn read_amount(all: &Vec<String>, at: usize) -> (r: i64)
    ensures
        r == amount_at(text::views(all@), at as int),
        0 <= r <= 4_294_967_296 * 604_800,
{
    if at < all.len() && all.len() - at > 1 {
        let count: i64 = read_count(all[at].as_str());
        let unit: i64 = read_unit(all[at + 1].as_str());
        assert(0 <= count * unit <= 4_294_967_296 * 604_800) by (nonlinear_arith)
            requires
                0 <= count <= 4_294_967_296,
                0 <= unit <= 604_800,
        ;
        count * unit
    } else {
        0
    }
}

impl Shift {
    fn goes_back(self) -> (r: bool)
        ensures
            r == self.leads_back(),
    {
        self == Shift::Back || self == Shift::Both
    }

    fn goes_forward(self) -> (r: bool)
        ensures
            r == self.leads_forward(),
    {
        self == Shift::Forward || self == Shift::Both
    }
}

fn goes_around(all: &Vec<String>, at: usize) -> (r: bool)
    ensures
        r == leads_around(text::views(all@), at as int),
{
    at < all.len() && all.len() - at > 2 && is_word(all, at, "before") && is_word(
        all,
        at + 1,
        "and",
    ) && is_word(all, at + 2, "after")
}

fn find_shift(all: &Vec<String>, at: usize) -> (r: Shift)
    ensures
        r == shift_at(text::views(all@), at as int),
{
    if goes_around(all, at) || is_word(all, at, "around") {
        Shift::Both
    } else if is_word(all, at, "before") {
        Shift::Back
    } else if is_word(all, at, "after") {
        Shift::Forward
    } else {
        Shift::Still
    }
}

fn find_shifted(all: &Vec<String>, at: usize) -> (r: usize)
    requires
        at < all@.len(),
    ensures
        r == shifted_from(text::views(all@), at as int),
        r <= all@.len(),
{
    let size: usize = all.len();
    if goes_around(all, at) {
        assert(at + 2 < size);
        at + 3
    } else {
        at + 1
    }
}

fn find_turn(all: &Vec<String>, at: usize) -> (r: Shift)
    ensures
        r == turn_at(text::views(all@), at as int),
{
    if is_word(all, at, "ago") {
        Shift::Back
    } else if is_word(all, at, "from") {
        Shift::Forward
    } else {
        Shift::Still
    }
}

fn ends_now(all: &Vec<String>) -> (r: bool)
    ensures
        r == runs_to_now(text::views(all@)),
{
    is_word(all, 0, "since") || is_word(all, 0, "after")
}

fn find_lead(all: &Vec<String>, at: usize) -> (r: Shift)
    ensures
        r == lead_at(text::views(all@), at as int),
{
    if read_amount(all, at) == 0 {
        return Shift::Still;
    }
    let size: usize = all.len();
    assert(at + 1 < size);
    let behind: usize = at + 2;
    let turn: Shift = find_turn(all, behind);
    if turn != Shift::Still {
        return turn;
    }
    let shift: Shift = find_shift(all, behind);
    if ends_now(all) || shift == Shift::Still {
        return Shift::Still;
    }
    let rest: Vec<String> = words_from(all, find_shifted(all, behind));
    let line: String = join(&rest, " ");
    if starts_any(line.as_str(), &first_time_list()) || starts_any(
        line.as_str(),
        &last_time_list(),
    ) {
        Shift::Still
    } else {
        shift
    }
}

fn add_leads(all: &Vec<String>, back: bool) -> (r: i128)
    ensures
        r == reach(text::views(all@), back, all@.len() as int),
        0 <= r <= 0xffff_ffff_ffff_ffff * 4_294_967_296 * 604_800,
{
    let ghost seen = text::views(all@);
    let mut total: i128 = 0;
    let mut i: usize = 0;
    while i < all.len()
        invariant
            i <= all@.len(),
            seen == text::views(all@),
            total == reach(seen, back, i as int),
            0 <= total <= i * 4_294_967_296 * 604_800,
        decreases all.len() - i,
    {
        let lead: Shift = find_lead(all, i);
        let amount: i64 = read_amount(all, i);
        assert(i * 4_294_967_296 * 604_800 <= 0xffff_ffff_ffff_ffff * 4_294_967_296 * 604_800);
        if (back && lead.goes_back()) || (!back && lead.goes_forward()) {
            total = total + amount as i128;
        }
        i += 1;
    }
    total
}

fn any_overflows(all: &Vec<String>) -> (r: bool)
    ensures
        r == exists|at: int| #[trigger] overflows(text::views(all@), at),
{
    let since: bool = ends_now(all);
    let mut at: usize = 0;
    while at < all.len()
        invariant
            at <= all@.len(),
            since == runs_to_now(text::views(all@)),
            forall|k: int| 0 <= k < at ==> !#[trigger] overflows(text::views(all@), k),
        decreases all.len() - at,
    {
        if read_amount(all, at) > 0 && read_count(all[at].as_str()) > COUNT_MAX as i64 {
            assert(at + 1 < all@.len());
            if !since || find_turn(all, at + 2) != Shift::Still {
                assert(overflows(text::views(all@), at as int));
                return true;
            }
        }
        at += 1;
    }
    false
}

fn holds_row(rows: &Vec<String>, least: usize, most: usize) -> (r: bool)
    ensures
        r == has_row(text::views(rows@), least as nat, most as nat),
{
    let mut i: usize = 0;
    while i < rows.len()
        invariant
            i <= rows@.len(),
            forall|k: int|
                0 <= k < i ==> !(least <= (#[trigger] text::views(rows@)[k]).len() <= most),
        decreases rows.len() - i,
    {
        assert(text::views(rows@)[i as int] == rows@[i as int]@);
        let size: usize = chars_of(rows[i].as_str()).len();
        if least <= size && size <= most {
            return true;
        }
        i += 1;
    }
    false
}

fn find_margin(all: &Vec<String>, rows: &Vec<String>, Ghost(phrase): Ghost<Seq<char>>) -> (r: i128)
    requires
        text::views(all@) == words(phrase),
        text::views(rows@) == numerals(phrase),
    ensures
        r == margin(phrase),
        0 <= r <= 6_942_672_000,
{
    let long: Vec<&'static str> = vec!["month", "year"];
    assert(str_views(long@) =~= long_periods());
    if holds_row(rows, 2, 2) {
        6_942_672_000
    } else if text::contains_text(all, "the") {
        1_000_000_000
    } else if rows.len() > 0 || shares(all, &month_list()) || shares(all, &long) {
        130_000_000
    } else {
        20_000_000
    }
}

fn find_period_end(at: i128, unit: i64) -> (r: i128)
    requires
        -0x1000_0000_0000_0000 < at < 0x1000_0000_0000_0000,
        unit == 604_800 || unit == 86_400 || unit == 3_600 || unit == 60 || unit == 1,
    ensures
        r == period_end(at as int, unit as int),
{
    // Behind the epoch by whole days, so that the remainder is that of a positive
    // number.
    let later: i128 = at + 1_728_000_000_000_000_000;
    proof {
        vstd::arithmetic::div_mod::lemma_mod_multiples_vanish(
            20_000_000_000_000,
            at as int,
            86_400,
        );
        vstd::arithmetic::div_mod::lemma_mod_multiples_vanish(
            480_000_000_000_000,
            at as int,
            3_600,
        );
        vstd::arithmetic::div_mod::lemma_mod_multiples_vanish(
            28_800_000_000_000_000,
            at as int,
            60,
        );
    }
    if unit == 604_800 {
        at + 604_800
    } else if unit == 86_400 {
        at - later % 86_400 + 86_400
    } else if unit == 3_600 {
        at - later % 3_600 + 3_600
    } else if unit == 60 {
        at - later % 60 + 60
    } else {
        at + 1
    }
}

fn lies_in_calendar(first: i128, last: i128) -> (r: bool)
    ensures
        r == in_calendar(first as int, last as int),
{
    CALENDAR_START as i128 <= first && last <= CALENDAR_END as i128
}

/// Whether a phrase stays within the calendar of the time grammar, as far as its
/// numbers go, against a reference by its seconds.
pub fn is_within_calendar(phrase: &str, secs: i64) -> (r: bool)
    ensures
        r == within_calendar(phrase@, secs as int),
{
    let sc: Vec<char> = chars_of(phrase);
    let all: Vec<String> = words_of(&sc);
    let rows: Vec<String> = numerals_of(&sc);
    let at: i128 = secs as i128;
    if !lies_in_calendar(at, at) || any_overflows(&all) {
        return false;
    }
    if all.len() == 1 && listed(&adverb_list(), all[0].as_str()) {
        let first: i128 = if is_word(&all, 0, "yesterday") {
            at - 86_400
        } else {
            at
        };
        let last: i128 = if is_word(&all, 0, "now") {
            find_period_end(at, 60)
        } else if is_word(&all, 0, "tomorrow") {
            find_period_end(at + 86_400, 86_400)
        } else if is_word(&all, 0, "yesterday") {
            find_period_end(at + 1 - 86_400, 86_400)
        } else {
            find_period_end(at, 86_400)
        };
        return lies_in_calendar(first, last);
    }
    let amount: i128 = read_amount(&all, 0) as i128;
    if amount > 0 && ((all.len() == 3 && is_word(&all, 2, "ago")) || (all.len() == 4 && is_word(
        &all,
        2,
        "from",
    ) && is_word(&all, 3, "now"))) {
        let moment: i128 = if all.len() == 3 {
            at - amount
        } else {
            at + amount
        };
        let unit: i64 = read_unit(all[1].as_str());
        assert(unit > 0) by {
            if unit_of(text::views(all@)[1]) == 0 {
                assert(count_of(text::views(all@)[0]) * 0 == 0) by (nonlinear_arith);
            }
        }
        return lies_in_calendar(moment, find_period_end(moment + 1, unit));
    }
    let years: i128 = if holds_row(&rows, 0, 5) {
        YEAR_REACH as i128
    } else {
        0
    };
    let low: i128 = if at < -years {
        at
    } else {
        -years
    };
    let high: i128 = if at > years {
        at
    } else {
        years
    };
    let margin: i128 = find_margin(&all, &rows, Ghost(phrase@));
    lies_in_calendar(low - margin - add_leads(&all, true), high + margin + add_leads(&all, false))
}

/// One side of a range, or a moment by itself.
struct OpenSide {
    amount: i64,
    shift: Shift,
    core: Vec<String>,
}

impl OpenSide {
    spec fn model(self) -> Side {
        Side { amount: self.amount as int, shift: self.shift, core: text::views(self.core@) }
    }

    spec fn valid(self) -> bool {
        0 <= self.amount <= 4_294_967_296 * 604_800
    }

    fn read(all: Vec<String>) -> (r: OpenSide)
        ensures
            r.model() == side_of(text::views(all@)),
            r.valid(),
    {
        let amount: i64 = read_amount(&all, 0);
        let shift: Shift = find_shift(&all, 2);
        if amount > 0 && shift != Shift::Still {
            let core: Vec<String> = words_from(&all, find_shifted(&all, 2));
            OpenSide { amount, shift, core }
        } else {
            OpenSide { amount: 0, shift: Shift::Still, core: all }
        }
    }

    fn first(&self) -> (r: bool)
        ensures
            r == self.model().is_first(),
    {
        listed(&first_time_list(), join(&self.core, " ").as_str())
    }

    fn last(&self) -> (r: bool)
        ensures
            r == self.model().is_last(),
    {
        listed(&last_time_list(), join(&self.core, " ").as_str())
    }

    fn out(&self) -> (r: bool)
        ensures
            r == self.model().is_out(),
    {
        (self.first() && (self.shift.goes_back() || self.amount > CALENDAR_SPAN - 60)) || (
        self.last() && (self.shift.goes_forward() || self.amount > CALENDAR_SPAN))
    }
}

/// What a side of a range is counted from the other side by.
enum OpenKind {
    Weekday,
    Clock(i64),
    Midnight,
    Month(i64),
    Day(i64),
    Other,
}

impl OpenKind {
    spec fn model(self) -> Kind {
        match self {
            OpenKind::Weekday => Kind::Weekday,
            OpenKind::Clock(s) => Kind::Clock(s as int),
            OpenKind::Midnight => Kind::Midnight,
            OpenKind::Month(m) => Kind::Month(m as int),
            OpenKind::Day(m) => Kind::Day(m as int),
            OpenKind::Other => Kind::Other,
        }
    }

    spec fn valid(self) -> bool {
        match self {
            OpenKind::Clock(s) => 0 <= s < 86_400,
            OpenKind::Month(m) => 1 <= m <= 12,
            OpenKind::Day(m) => 1 <= m <= 12,
            _ => true,
        }
    }

    fn weekday(&self) -> (r: bool)
        ensures
            r == (self.model() is Weekday),
    {
        match self {
            OpenKind::Weekday => true,
            _ => false,
        }
    }

    fn sought_from_now(&self) -> (r: bool)
        ensures
            r == (self.model() is Other || self.model() is Day),
    {
        match self {
            OpenKind::Other => true,
            OpenKind::Day(_) => true,
            _ => false,
        }
    }

    fn early(&self) -> (r: i64)
        requires
            self.valid(),
        ensures
            r == early(self.model()),
    {
        match self {
            OpenKind::Clock(s) => *s,
            OpenKind::Day(m) => (*m - 1) * 2_419_200,
            _ => 0,
        }
    }

    fn late(&self) -> (r: i64)
        requires
            self.valid(),
        ensures
            r == late(self.model()),
    {
        match self {
            OpenKind::Weekday => 86_390,
            OpenKind::Clock(s) => 86_398 - *s,
            _ => 0,
        }
    }

    fn precedes(&self, depth: i64) -> (r: bool)
        requires
            self.valid(),
        ensures
            r == precedes_time(self.model(), depth as int),
    {
        match self {
            OpenKind::Weekday => depth < 604_800,
            OpenKind::Clock(s) => depth < *s && depth < 86_400,
            OpenKind::Month(m) => depth <= (*m - 1) * 2_678_400,
            _ => false,
        }
    }

    fn closes(&self, depth: i64) -> (r: bool)
        ensures
            r == closes_time(self.model(), depth as int),
    {
        match self {
            OpenKind::Clock(s) => *s == 86_399 && depth == 0,
            OpenKind::Midnight => depth < 86_400,
            OpenKind::Month(m) => *m == 12 && depth < 2_678_400,
            _ => false,
        }
    }
}

fn closed_by_weekday(all: &Vec<String>) -> (r: bool)
    ensures
        r == exists|at: int| #[trigger] weekday_closes(text::views(all@), at),
{
    let days: Vec<&'static str> = weekday_list();
    let picks: Vec<&'static str> = modifier_list();
    let mut at: usize = 0;
    while at < all.len()
        invariant
            at <= all@.len(),
            str_views(days@) == weekdays(),
            str_views(picks@) == modifiers(),
            forall|k: int| 0 <= k < at ==> !#[trigger] weekday_closes(text::views(all@), k),
        decreases all.len() - at,
    {
        let closes: bool = at + 1 == all.len() || is_word(all, at + 1, "at");
        if listed(&days, all[at].as_str()) && closes && (at == 0 || (!listed(
            &picks,
            all[at - 1].as_str(),
        ) && (!is_word(all, at, "m") || (strip_suffix(all[at - 1].as_str(), "a").is_none()
            && strip_suffix(all[at - 1].as_str(), "p").is_none())))) {
            assert(weekday_closes(text::views(all@), at as int));
            return true;
        }
        assert(!weekday_closes(text::views(all@), at as int));
        at += 1;
    }
    false
}

fn read_part(parts: &Vec<String>, at: usize) -> (r: i64)
    requires
        forall|i: int| 0 <= i < parts@.len() ==> only_digits(#[trigger] text::views(parts@)[i]),
    ensures
        r <= COUNT_MAX + 1,
        0 <= r,
        r <= COUNT_MAX ==> r == part_at(text::views(parts@), at as int),
        r > COUNT_MAX ==> part_at(text::views(parts@), at as int) > COUNT_MAX,
{
    if at < parts.len() {
        assert(only_digits(text::views(parts@)[at as int]));
        read_value(&chars_of(parts[at].as_str())) as i64
    } else {
        0
    }
}

fn read_seconds(parts: &Vec<String>, late: bool) -> (r: Option<i64>)
    ensures
        match r {
            Some(s) => seconds_of(text::views(parts@), late) == Some(s as int) && 0 <= s < 86_400,
            None => seconds_of(text::views(parts@), late) is None,
        },
{
    if parts.len() < 1 || parts.len() > 3 {
        return None;
    }
    let mut i: usize = 0;
    while i < parts.len()
        invariant
            i <= parts@.len(),
            1 <= parts@.len() <= 3,
            forall|k: int|
                0 <= k < i ==> (#[trigger] text::views(parts@)[k]).len() <= 2 && only_digits(
                    text::views(parts@)[k],
                ),
        decreases parts.len() - i,
    {
        assert(text::views(parts@)[i as int] == parts@[i as int]@);
        let sc: Vec<char> = chars_of(parts[i].as_str());
        if sc.len() > 2 || !digits_only(&sc) {
            return None;
        }
        i += 1;
    }
    let hour: i64 = read_part(parts, 0) + if late {
        12
    } else {
        0
    };
    let minute: i64 = read_part(parts, 1);
    let second: i64 = read_part(parts, 2);
    if hour > 24 || minute > 59 || second > 59 {
        return None;
    }
    let start: i64 = if hour == 24 {
        0
    } else {
        hour * 3_600
    };
    Some(start + minute * 60 + second)
}

fn read_clock(core: &Vec<String>) -> (r: Option<i64>)
    ensures
        match r {
            Some(s) => clock_of(text::views(core@)) == Some(s as int) && 0 <= s < 86_400,
            None => clock_of(text::views(core@)) is None,
        },
{
    let halves: Vec<&'static str> = vec!["am", "pm", "a", "p", "m"];
    assert(str_views(halves@) =~= half_words());
    let mut i: usize = 1;
    while i < core.len()
        invariant
            1 <= i,
            str_views(halves@) == half_words(),
            forall|k: int|
                0 < k < i && k < core@.len() ==> text::holds(
                    half_words(),
                    #[trigger] text::views(core@)[k],
                ),
        decreases core.len() - i,
    {
        if !listed(&halves, core[i].as_str()) {
            assert(!text::holds(half_words(), text::views(core@)[i as int]));
            return None;
        }
        i += 1;
    }
    let line: String = join(core, "");
    if text::same(line.as_str(), "noon") {
        return Some(43_200);
    }
    proof {
        reveal_strlit("am");
        reveal_strlit("pm");
    }
    match strip_suffix(line.as_str(), "am") {
        Some(rest) => {
            return read_seconds(&split_pieces(rest, ':'), false);
        },
        None => {},
    }
    match strip_suffix(line.as_str(), "pm") {
        Some(rest) => {
            return read_seconds(&split_pieces(rest, ':'), true);
        },
        None => {},
    }
    read_seconds(&split_pieces(line.as_str(), ':'), false)
}

fn read_month(w: &str) -> (r: i64)
    ensures
        r == month_of(w@, 24),
        0 <= r <= 12,
{
    let months: Vec<&'static str> = month_list();
    assert(str_views(months@).len() == 24);
    let mut n: usize = 24;
    while n > 0
        invariant
            n <= 24,
            months@.len() == 24,
            str_views(months@) == month_names(),
            month_of(w@, n as int) == month_of(w@, 24),
        decreases n,
    {
        assert(str_views(months@)[n - 1] == month_names()[n - 1]);
        if text::same(months[n - 1], w) {
            return ((n - 1) / 2 + 1) as i64;
        }
        n -= 1;
    }
    0
}

fn find_month(core: &Vec<String>) -> (r: i64)
    ensures
        r == month_in(text::views(core@), core@.len() as int),
        0 <= r <= 12,
{
    let mut n: usize = core.len();
    while n > 0
        invariant
            n <= core@.len(),
            month_in(text::views(core@), n as int) == month_in(
                text::views(core@),
                core@.len() as int,
            ),
        decreases n,
    {
        let month: i64 = read_month(core[n - 1].as_str());
        assert(text::views(core@)[n - 1] == core@[n - 1]@);
        if month > 0 {
            return month;
        }
        n -= 1;
    }
    0
}

fn find_kind(core: &Vec<String>) -> (r: OpenKind)
    ensures
        r.model() == kind_of(text::views(core@)),
        r.valid(),
{
    if closed_by_weekday(core) {
        return OpenKind::Weekday;
    }
    if core.len() == 1 {
        if is_word(core, 0, "midnight") {
            return OpenKind::Midnight;
        }
        let month: i64 = read_month(core[0].as_str());
        if month > 0 {
            return OpenKind::Month(month);
        }
    }
    let within: i64 = find_month(core);
    if within > 0 {
        return OpenKind::Day(within);
    }
    match read_clock(core) {
        Some(s) => OpenKind::Clock(s),
        None => OpenKind::Other,
    }
}

fn holds_year(w: &str) -> (r: bool)
    ensures
        r == has_year(w@),
{
    let sc: Vec<char> = chars_of(w);
    let rows: Vec<String> = numerals_of(&sc);
    if text::find_char(&sc, ':') < sc.len() {
        return false;
    }
    if rows.len() >= 3 {
        return true;
    }
    let mut i: usize = 0;
    while i < rows.len()
        invariant
            i <= rows@.len(),
            text::views(rows@) == numerals(w@),
            !w@.contains(':'),
            forall|k: int| 0 <= k < i ==> (#[trigger] numerals(w@)[k]).len() < 3,
        decreases rows.len() - i,
    {
        assert(numerals(w@)[i as int] == rows@[i as int]@);
        if chars_of(rows[i].as_str()).len() >= 3 {
            assert(numerals(w@)[i as int].len() >= 3);
            return true;
        }
        i += 1;
    }
    false
}

fn fixed(core: &Vec<String>) -> (r: bool)
    ensures
        r == is_fixed(text::views(core@)),
{
    let now: Vec<&'static str> = vec!["now", "today", "tomorrow", "yesterday", "ago"];
    assert(str_views(now@) =~= present_words());
    if shares(core, &now) || (text::contains_text(core, "the") && find_month(core) == 0) {
        return true;
    }
    let mut i: usize = 0;
    while i < core.len()
        invariant
            i <= core@.len(),
            forall|k: int| 0 <= k < i ==> !has_year(#[trigger] text::views(core@)[k]),
        decreases core.len() - i,
    {
        if holds_year(core[i].as_str()) {
            assert(has_year(text::views(core@)[i as int]));
            return true;
        }
        i += 1;
    }
    false
}

fn roomy(depth: i64, amount: i64) -> (r: bool)
    requires
        0 <= depth <= 0x100_0000_0000_0000,
        0 <= amount <= 0x100_0000_0000_0000,
    ensures
        r == has_room(depth as int, amount as int),
{
    depth + amount + TWO_YEARS <= CALENDAR_SPAN
}

fn cannot_follow_end(side: &OpenSide, depth: i64) -> (r: bool)
    requires
        side.valid(),
        0 <= depth <= 0x100_0000_0000_0000,
    ensures
        r == fails_behind_end(side.model(), depth as int),
{
    let ahead: i64 = if side.shift.goes_forward() {
        side.amount
    } else {
        0
    };
    !fixed(&side.core) && (depth < TWO_YEARS + ahead || !roomy(depth, side.amount))
}

fn cannot_follow_beginning(side: &OpenSide, depth: i64) -> (r: bool)
    requires
        side.valid(),
        0 <= depth <= 0x100_0000_0000_0000,
    ensures
        r == fails_behind_beginning(side.model(), depth as int),
{
    let kind: OpenKind = find_kind(&side.core);
    !fixed(&side.core) && ((kind.weekday() && depth < 604_800) || (side.shift.goes_back()
        && side.amount > kind.early() && side.amount > depth - 31_622_400) || !roomy(
        depth,
        side.amount,
    ))
}

fn cannot_lead_to_beginning(side: &OpenSide, depth: i64) -> (r: bool)
    requires
        side.valid(),
        0 <= depth <= 0x100_0000_0000_0000,
    ensures
        r == fails_before_beginning(side.model(), depth as int),
{
    let kind: OpenKind = find_kind(&side.core);
    !kind.sought_from_now() && (kind.precedes(depth) || (side.shift.goes_back() && side.amount
        > kind.early() && side.amount > depth - 31_622_400) || !roomy(depth, side.amount))
}

fn cannot_lead_to_end(side: &OpenSide, depth: i64) -> (r: bool)
    requires
        side.valid(),
        0 <= depth <= 0x100_0000_0000_0000,
    ensures
        r == fails_before_end(side.model(), depth as int),
{
    let kind: OpenKind = find_kind(&side.core);
    !kind.sought_from_now() && (kind.closes(depth) || (side.shift.goes_forward() && side.amount
        > kind.late() && side.amount > depth - 2_764_800) || !roomy(depth, side.amount))
}

fn clash(left: &OpenSide, right: &OpenSide, through: bool) -> (r: bool)
    requires
        left.valid(),
        right.valid(),
    ensures
        r == sides_clash(left.model(), right.model(), through),
{
    if left.out() || right.out() {
        true
    } else if (left.first() || left.last()) && (right.first() || right.last()) {
        false
    } else if left.last() {
        cannot_follow_end(right, left.amount)
    } else if left.first() {
        cannot_follow_beginning(right, left.amount)
    } else if right.first() {
        let depth: i64 = if right.amount > 0 {
            right.amount + 60
        } else if through {
            60
        } else {
            0
        };
        cannot_lead_to_beginning(left, depth)
    } else if right.last() {
        cannot_lead_to_end(left, right.amount)
    } else {
        false
    }
}

fn find_left_end(all: &Vec<String>, at: usize) -> (r: usize)
    requires
        at <= all@.len(),
    ensures
        r == left_end(text::views(all@), at as int),
        r <= at,
{
    let mut n: usize = at;
    while n > 0 && (is_word(all, n - 1, "-") || is_word(all, n - 1, "up"))
        invariant
            n <= at <= all@.len(),
            left_end(text::views(all@), n as int) == left_end(text::views(all@), at as int),
        decreases n,
    {
        n -= 1;
    }
    n
}

fn find_right_start(all: &Vec<String>, at: usize) -> (r: usize)
    requires
        at <= all@.len(),
    ensures
        r == right_start(text::views(all@), at as int),
        r <= all@.len(),
{
    let mut n: usize = at;
    while n < all.len() && is_word(all, n, "-")
        invariant
            at <= n <= all@.len(),
            right_start(text::views(all@), n as int) == right_start(text::views(all@), at as int),
        decreases all.len() - n,
    {
        n += 1;
    }
    n
}

fn clashes(all: &Vec<String>) -> (r: bool)
    ensures
        r == exists|at: int| #[trigger] clash_at(text::views(all@), at),
{
    let ghost seen = text::views(all@);
    let mut at: usize = 0;
    while at < all.len()
        invariant
            at <= all@.len(),
            seen == text::views(all@),
            forall|k: int| 0 <= k < at ==> !#[trigger] clash_at(seen, k),
        decreases all.len() - at,
    {
        let through: bool = is_word(all, at, "through") || is_word(all, at, "thru") || is_word(
            all,
            at,
            "-",
        );
        if through || is_word(all, at, "to") || is_word(all, at, "until") || is_word(
            all,
            at,
            "till",
        ) {
            let left: Vec<String> = words_between(all, 0, find_left_end(all, at));
            let right: Vec<String> = words_from(all, find_right_start(all, at + 1));
            proof {
                let n = left_end(seen, at as int);
                assert(seen.subrange(0, n) =~= seen.take(n));
            }
            if clash(&OpenSide::read(left), &OpenSide::read(right), through) {
                assert(clash_at(seen, at as int));
                return true;
            }
        }
        assert(!clash_at(seen, at as int));
        at += 1;
    }
    false
}

fn strays(all: &Vec<String>) -> (r: bool)
    ensures
        r == leaves_calendar(text::views(all@)),
{
    if ends_now(all) {
        return false;
    }
    let from: usize = if is_word(all, 0, "from") {
        1
    } else {
        0
    };
    let body: Vec<String> = words_from(all, from);
    proof {
        assert(text::views(all@).skip(0) =~= text::views(all@));
        if all@.len() > 0 {
            assert(text::views(all@).skip(1) =~= text::views(all@).drop_first());
        }
    }
    let shifted_out: bool = OpenSide::read(words_from(&body, 0)).out();
    assert(text::views(body@).skip(0) =~= text::views(body@));
    shifted_out || clashes(&body)
}

fn holds_long_s(phrase: &Vec<char>) -> (r: bool)
    ensures
        r == exists|at: int| #[trigger] long_s_at(phrase@, at),
{
    let mut at: usize = 0;
    while at < phrase.len()
        invariant
            at <= phrase@.len(),
            forall|k: int| 0 <= k < at ==> !#[trigger] long_s_at(phrase@, k),
        decreases phrase.len() - at,
    {
        if phrase[at] == '\u{17f}' {
            let before: char = if at > 0 {
                phrase[at - 1]
            } else {
                ' '
            };
            let letter: bool = ('a' <= before && before <= 'z') || ('A' <= before && before <= 'Z');
            let digit: bool = '0' <= before && before <= '9';
            let rest: String = plain_line(phrase, at + 1);
            let behind: Shift = find_turn(&split_pieces(rest.as_str(), ' '), 1);
            if !letter && (digit || strip_prefix(rest.as_str(), "u").is_some() || strip_prefix(
                rest.as_str(),
                "a",
            ).is_some() || strip_prefix(rest.as_str(), "ep").is_some() || (strip_prefix(
                rest.as_str(),
                "econd",
            ).is_some() && behind != Shift::Still)) {
                assert(long_s_at(phrase@, at as int));
                return true;
            }
        }
        assert(!long_s_at(phrase@, at as int));
        at += 1;
    }
    false
}

/// Whether the time grammar covers a phrase on a given day.
pub fn is_covered(phrase: &str, date: Date) -> (r: bool)
    requires
        date.valid(),
    ensures
        r == covered(phrase@, date),
{
    let sc: Vec<char> = chars_of(phrase);
    let all: Vec<String> = words_of(&sc);
    !holds_long_s(&sc) && !stands_alone(&sc, 'R') && !strays(&all) && !lacks_day(&all, date)
}


/// A count is written as a word up to ten, or in digits without a zero in front,
/// which count what they say.
pub proof fn law_counts_are_read(w: Seq<char>)
    ensures
        only_digits(w) && w.len() > 0 && w[0] != '0' && text::number_of(w) <= 4_294_967_295
            ==> count_of(w) == text::number_of(w),
        only_digits(w) && w.len() > 0 && w[0] != '0' && text::number_of(w) > 4_294_967_295
            ==> count_of(w) == 4_294_967_296,
        count_of("one"@) == 1,
        count_of("two"@) == 2,
        count_of("three"@) == 3,
        count_of("four"@) == 4,
        count_of("five"@) == 5,
        count_of("six"@) == 6,
        count_of("seven"@) == 7,
        count_of("eight"@) == 8,
        count_of("nine"@) == 9,
        count_of("ten"@) == 10,
{
    reveal_strlit("one");
    reveal_strlit("two");
    reveal_strlit("three");
    reveal_strlit("four");
    reveal_strlit("five");
    reveal_strlit("six");
    reveal_strlit("seven");
    reveal_strlit("eight");
    reveal_strlit("nine");
    reveal_strlit("ten");
    assert("one"@.len() == 3);
    assert("two"@.len() == 3);
    assert("three"@.len() == 5);
    assert("four"@.len() == 4);
    assert("five"@.len() == 4);
    assert("six"@.len() == 3);
    assert("seven"@.len() == 5);
    assert("eight"@.len() == 5);
    assert("nine"@.len() == 4);
    assert("ten"@.len() == 3);
    assert("one"@[0] == 'o' && "two"@[0] == 't');
    assert("one"@[0] == 'o' && "six"@[0] == 's');
    assert("one"@[0] == 'o' && "ten"@[0] == 't');
    assert("two"@[0] == 't' && "six"@[0] == 's');
    assert("two"@[1] == 'w' && "ten"@[1] == 'e');
    assert("three"@[0] == 't' && "seven"@[0] == 's');
    assert("three"@[0] == 't' && "eight"@[0] == 'e');
    assert("four"@[1] == 'o' && "five"@[1] == 'i');
    assert("four"@[0] == 'f' && "nine"@[0] == 'n');
    assert("five"@[0] == 'f' && "nine"@[0] == 'n');
    assert("six"@[0] == 's' && "ten"@[0] == 't');
    assert("seven"@[0] == 's' && "eight"@[0] == 'e');
    if only_digits(w) && w.len() > 0 {
        assert('0' <= w[0] <= '9');
        lemma_value_is_number(w);
        assert("one"@[0] == 'o');
        assert("two"@[0] == 't');
        assert("three"@[0] == 't');
        assert("four"@[0] == 'f');
        assert("five"@[0] == 'f');
        assert("six"@[0] == 's');
        assert("seven"@[0] == 's');
        assert("eight"@[0] == 'e');
        assert("nine"@[0] == 'n');
        assert("ten"@[0] == 't');
    }
}

proof fn lemma_value_is_number(digits: Seq<char>)
    requires
        only_digits(digits),
    ensures
        value_of(digits) == text::number_of(digits),
        text::number_of(digits) >= 0,
    decreases digits.len(),
{
    if digits.len() > 0 {
        let d = digits.drop_last();
        assert forall|i: int| 0 <= i < d.len() implies '0' <= #[trigger] d[i] <= '9' by {
            assert(d[i] == digits[i]);
        }
        lemma_value_is_number(d);
        assert('0' <= digits[digits.len() - 1] <= '9');
    }
}

/// A week has seven days, a day twenty-four hours, an hour sixty minutes, and a
/// minute sixty seconds; the plural says the same.
pub proof fn law_units_in_seconds()
    ensures
        unit_of("second"@) == 1,
        unit_of("minute"@) == 60 * unit_of("second"@),
        unit_of("hour"@) == 60 * unit_of("minute"@),
        unit_of("day"@) == 24 * unit_of("hour"@),
        unit_of("week"@) == 7 * unit_of("day"@),
        unit_of("seconds"@) == unit_of("second"@) && unit_of("minutes"@) == unit_of("minute"@)
            && unit_of("hours"@) == unit_of("hour"@) && unit_of("days"@) == unit_of("day"@)
            && unit_of("weeks"@) == unit_of("week"@),
{
    reveal_strlit("week");
    reveal_strlit("weeks");
    reveal_strlit("day");
    reveal_strlit("days");
    reveal_strlit("hour");
    reveal_strlit("hours");
    reveal_strlit("minute");
    reveal_strlit("minutes");
    reveal_strlit("second");
    reveal_strlit("seconds");
    assert("week"@.len() == 4);
    assert("weeks"@.len() == 5);
    assert("day"@.len() == 3);
    assert("days"@.len() == 4);
    assert("hour"@.len() == 4);
    assert("hours"@.len() == 5);
    assert("minute"@.len() == 6);
    assert("minutes"@.len() == 7);
    assert("second"@.len() == 6);
    assert("seconds"@.len() == 7);
    assert("week"@[0] == 'w' && "days"@[0] == 'd');
    assert("week"@[0] == 'w' && "hour"@[0] == 'h');
    assert("weeks"@[0] == 'w' && "hours"@[0] == 'h');
    assert("days"@[0] == 'd' && "hour"@[0] == 'h');
    assert("minute"@[0] == 'm' && "second"@[0] == 's');
    assert("minutes"@[0] == 'm' && "seconds"@[0] == 's');
}

/// A phrase is read character by character: a hyphen stands apart, white space, a
/// full stop and a comma part words, and capitals do not matter.
pub proof fn law_phrase_is_read_plainly(a: Seq<char>, b: Seq<char>, c: char)
    ensures
        plain(a + b) == plain(a) + plain(b),
        plain(seq!['-']) == seq![' ', '-', ' '],
        plain(seq!['.']) == seq![' '],
        plain(seq![',']) == seq![' '],
        'a' <= c <= 'z' || '0' <= c <= '9' ==> plain(seq![c]) == seq![c],
        'A' <= c <= 'Z' ==> plain(seq![c]).len() == 1 && plain(seq![c])[0] as int == c as int + 32,
    decreases b.len(),
{
    reveal_with_fuel(plain, 2);
    assert(seq![c].drop_last() =~= Seq::<char>::empty());
    assert(seq!['-'].drop_last() =~= Seq::<char>::empty());
    assert(seq!['.'].drop_last() =~= Seq::<char>::empty());
    assert(seq![','].drop_last() =~= Seq::<char>::empty());
    assert(plain(seq!['-']) =~= seq![' ', '-', ' ']);
    assert(plain(seq!['.']) =~= seq![' ']);
    assert(plain(seq![',']) =~= seq![' ']);
    if 'a' <= c <= 'z' || '0' <= c <= '9' {
        assert(plain(seq![c]) =~= seq![c]);
    }
    if b.len() > 0 {
        assert((a + b).drop_last() =~= a + b.drop_last());
        assert((a + b).last() == b.last());
        law_phrase_is_read_plainly(a, b.drop_last(), c);
        assert(plain(a + b) =~= plain(a) + plain(b));
    } else {
        assert(a + b =~= a);
        assert(plain(a) + plain(b) =~= plain(a));
    }
}

/// A word is a month where it is one of the names, two for each month, and the
/// months are numbered from one.
pub proof fn law_months_are_numbered(w: Seq<char>, n: int)
    requires
        0 <= n <= 24,
    ensures
        month_of(w, n) > 0 <==> exists|k: int| 0 <= k < n && #[trigger] month_names()[k] == w,
        month_of(w, n) > 0 ==> month_names()[2 * month_of(w, n) - 2] == w
            || month_names()[2 * month_of(w, n) - 1] == w,
        0 <= month_of(w, n) <= 12,
    decreases n,
{
    if n > 0 {
        law_months_are_numbered(w, n - 1);
        if month_names()[n - 1] == w {
            let m = (n - 1) / 2 + 1;
            assert(n - 1 == 2 * m - 2 || n - 1 == 2 * m - 1);
        }
    }
}

/// A clock time counts the seconds since midnight; in the second half of the day
/// twelve hours are added.
pub proof fn law_clock_counts_seconds(h: Seq<char>, m: Seq<char>, s: Seq<char>)
    requires
        only_digits(h) && h.len() <= 2,
        only_digits(m) && m.len() <= 2,
        only_digits(s) && s.len() <= 2,
        text::number_of(m) < 60,
        text::number_of(s) < 60,
    ensures
        text::number_of(h) < 24 ==> seconds_of(seq![h, m, s], false) == Some(
            3600 * text::number_of(h) + 60 * text::number_of(m) + text::number_of(s),
        ),
        text::number_of(h) < 12 ==> seconds_of(seq![h, m, s], true) == Some(
            43_200 + 3600 * text::number_of(h) + 60 * text::number_of(m) + text::number_of(s),
        ),
        text::number_of(h) > 24 ==> seconds_of(seq![h, m, s], false) is None,
{
    lemma_value_is_number(h);
    lemma_value_is_number(m);
    lemma_value_is_number(s);
    let parts = seq![h, m, s];
    assert(parts[0] == h && parts[1] == m && parts[2] == s);
}

/// What lies some time ago is resolved only where it lies in the calendar, and so
/// does the moment from which it is counted.
pub proof fn law_past_lies_in_calendar(
    phrase: Seq<char>,
    secs: int,
    count: Seq<char>,
    unit: Seq<char>,
)
    requires
        within_calendar(phrase, secs),
    ensures
        -8_334_601_228_800 <= secs <= 8_210_266_876_799,
        words(phrase) == seq![count, unit, "ago"@] && count_of(count) * unit_of(unit) > 0
            ==> -8_334_601_228_800 <= secs - count_of(count) * unit_of(unit),
        words(phrase) == seq![count, unit, "from"@, "now"@] && count_of(count) * unit_of(unit) > 0
            ==> secs + count_of(count) * unit_of(unit) <= 8_210_266_876_799,
{
    let all = words(phrase);
    let unit_secs = unit_of(unit) as int;
    if all == seq![count, unit, "ago"@] && count_of(count) * unit_of(unit) > 0 {
        assert(all[0] == count && all[1] == unit && all[2] == "ago"@);
        assert(counts_from_now(all));
    }
    if all == seq![count, unit, "from"@, "now"@] && count_of(count) * unit_of(unit) > 0 {
        assert(all[0] == count && all[1] == unit && all[2] == "from"@ && all[3] == "now"@);
        assert(counts_from_now(all));
        let at = secs + count_of(count) * unit_of(unit);
        assert(unit_secs > 0) by (nonlinear_arith)
            requires
                count_of(count) * unit_of(unit) > 0,
                unit_secs == unit_of(unit) as int,
        ;
        assert(period_end(at + 1, unit_secs) > at) by {
            if unit_secs == 86_400 {
                assert((at + 1) % 86_400 < 86_400);
            } else if unit_secs == 3_600 {
                assert((at + 1) % 3_600 < 3_600);
            } else if unit_secs == 60 {
                assert((at + 1) % 60 < 60);
            } else if unit_secs == 1 {
                assert((at + 1) % 1 < 1);
            }
        }
    }
}

} // verus!
