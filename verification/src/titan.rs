//! The options of the blob store that keeps large values beside the runs.

use vstd::prelude::*;

verus! {

/// How the blob store takes part in flushes and compactions.
#[derive(Clone, Copy, Debug, PartialEq, Eq, Structural)]
pub enum TitanBlobRunMode {
    /// Values are read and written as usual.
    Normal,
    /// No value is written to the blob log during flush and compaction.
    /// What the blob log holds stays readable and is collected.
    ReadOnly,
    /// On flush and compaction, values are read from the blob log and stored
    /// in the runs again.
    Fallback,
}

impl TitanBlobRunMode {
    /// The number that stands for the mode.
    pub open spec fn code_of(self) -> u8 {
        match self {
            TitanBlobRunMode::Normal => 0,
            TitanBlobRunMode::ReadOnly => 1,
            TitanBlobRunMode::Fallback => 2,
        }
    }

    /// The number that stands for the mode.
    pub fn code(&self) -> (c: u8)
        ensures
            c == self.code_of(),
    {
        match self {
            TitanBlobRunMode::Normal => 0,
            TitanBlobRunMode::ReadOnly => 1,
            TitanBlobRunMode::Fallback => 2,
        }
    }

    /// The mode that a number stands for, if it stands for one.
    pub fn from_code(c: u8) -> (r: Option<TitanBlobRunMode>)
        ensures
            match r {
                Some(m) => m.code_of() == c,
                None => c > 2,
            },
    {
        if c == 0 {
            Some(TitanBlobRunMode::Normal)
        } else if c == 1 {
            Some(TitanBlobRunMode::ReadOnly)
        } else if c == 2 {
            Some(TitanBlobRunMode::Fallback)
        } else {
            None
        }
    }
}

/// The options of the blob store.
#[derive(Clone, Debug, PartialEq, Eq)]
pub struct TitanDBOptions {
    /// The directory of the blob store's own data, beside the database. Empty
    /// stands for the directory `titandb` inside the database's.
    pub dirname: String,
    /// Garbage collection in the background is switched off.
    pub disable_background_gc: bool,
    /// The greatest number of threads that collect garbage in the background.
    pub max_background_gc: i32,
    /// Every how many seconds obsolete blob files are deleted; with 0 they
    /// are never deleted.
    pub purge_obsolete_files_period_sec: u32,
    /// Every how many seconds the statistics are written to the log; with 0
    /// they are never written.
    pub titan_stats_dump_period_sec: u32,
}

/// The character of a decimal digit.
pub open spec fn digit_char(d: nat) -> char {
    if d == 0 {
        '0'
    } else if d == 1 {
        '1'
    } else if d == 2 {
        '2'
    } else if d == 3 {
        '3'
    } else if d == 4 {
        '4'
    } else if d == 5 {
        '5'
    } else if d == 6 {
        '6'
    } else if d == 7 {
        '7'
    } else if d == 8 {
        '8'
    } else {
        '9'
    }
}

/// A number in decimal digits, without leading zeros.
pub open spec fn decimal(n: nat) -> Seq<char>
    decreases n,
{
    if n < 10 {
        seq![digit_char(n)]
    } else {
        decimal(n / 10).push(digit_char(n % 10))
    }
}

/// A number with its sign in decimal digits.
pub open spec fn signed_decimal(n: int) -> Seq<char> {
    if n < 0 {
        seq!['-'] + decimal((-n) as nat)
    } else {
        decimal(n as nat)
    }
}

/// The word for a truth value.
pub open spec fn truth_word(b: bool) -> Seq<char> {
    if b {
        "true"@
    } else {
        "false"@
    }
}

/// The options in a line: the five values, each separated from the next by
/// one blank.
pub open spec fn described(
    dirname: Seq<char>,
    disable_background_gc: bool,
    max_background_gc: i32,
    purge_obsolete_files_period_sec: u32,
    titan_stats_dump_period_sec: u32,
) -> Seq<char> {
    dirname + seq![' '] + truth_word(disable_background_gc) + seq![' '] + signed_decimal(
        max_background_gc as int,
    ) + seq![' '] + decimal(purge_obsolete_files_period_sec as nat) + seq![' '] + decimal(
        titan_stats_dump_period_sec as nat,
    )
}

/// The text of a decimal digit.
fn digit_text(d: u64) -> (s: &'static str)
    requires
        d < 10,
    ensures
        s@ == seq![digit_char(d as nat)],
{
    proof {
        reveal_strlit("0");
        reveal_strlit("1");
        reveal_strlit("2");
        reveal_strlit("3");
        reveal_strlit("4");
        reveal_strlit("5");
        reveal_strlit("6");
        reveal_strlit("7");
        reveal_strlit("8");
        reveal_strlit("9");
    }
    let s = if d == 0 {
        "0"
    } else if d == 1 {
        "1"
    } else if d == 2 {
        "2"
    } else if d == 3 {
        "3"
    } else if d == 4 {
        "4"
    } else if d == 5 {
        "5"
    } else if d == 6 {
        "6"
    } else if d == 7 {
        "7"
    } else if d == 8 {
        "8"
    } else {
        "9"
    };
    assert(s@ =~= seq![digit_char(d as nat)]);
    s
}

/// Appends a number in decimal digits.
pub fn append_decimal(s: &mut String, n: u64)
    ensures
        final(s)@ == old(s)@ + decimal(n as nat),
    decreases n,
{
    if n >= 10 {
        append_decimal(s, n / 10);
    }
    s.append(digit_text(n % 10));
    proof {
        if n >= 10 {
            assert(old(s)@ + decimal((n / 10) as nat) + seq![digit_char((n % 10) as nat)] =~= old(s)@ + decimal(n as nat));
        }
    }
}

/// Appends a number with its sign in decimal digits.
pub fn append_signed_decimal(s: &mut String, n: i32)
    ensures
        final(s)@ == old(s)@ + signed_decimal(n as int),
{
    let wide: i64 = n as i64;
    if wide < 0 {
        proof {
            reveal_strlit("-");
        }
        s.append("-");
        assert(s@ =~= old(s)@ + seq!['-']);
        let size: u64 = (0 - wide) as u64;
        append_decimal(s, size);
        assert(s@ =~= old(s)@ + signed_decimal(n as int));
    } else {
        append_decimal(s, wide as u64);
    }
}

impl TitanDBOptions {
    /// The default options: the default directory, garbage collection in the
    /// background with one thread, obsolete files deleted every 10 seconds,
    /// statistics written every 600 seconds.
    pub fn new() -> (r: TitanDBOptions)
        ensures
            r.dirname@ == Seq::<char>::empty(),
            !r.disable_background_gc,
            r.max_background_gc == 1,
            r.purge_obsolete_files_period_sec == 10,
            r.titan_stats_dump_period_sec == 600,
    {
        TitanDBOptions {
            dirname: String::new(),
            disable_background_gc: false,
            max_background_gc: 1,
            purge_obsolete_files_period_sec: 10,
            titan_stats_dump_period_sec: 600,
        }
    }

    /// The options in a line: the directory, whether garbage collection in
    /// the background is off, the number of threads, and the two periods,
    /// each separated from the next by one blank.
    pub fn to_string(&self) -> (s: String)
        ensures
            s@ == described(
                self.dirname@,
                self.disable_background_gc,
                self.max_background_gc,
                self.purge_obsolete_files_period_sec,
                self.titan_stats_dump_period_sec,
            ),
    {
        proof {
            reveal_strlit(" ");
        }
        let mut s = self.dirname.clone();
        s.append(" ");
        if self.disable_background_gc {
            s.append("true");
        } else {
            s.append("false");
        }
        s.append(" ");
        append_signed_decimal(&mut s, self.max_background_gc);
        s.append(" ");
        append_decimal(&mut s, self.purge_obsolete_files_period_sec as u64);
        s.append(" ");
        append_decimal(&mut s, self.titan_stats_dump_period_sec as u64);
        proof {
            assert(" "@ =~= seq![' ']);
            assert(s@ =~= described(
                self.dirname@,
                self.disable_background_gc,
                self.max_background_gc,
                self.purge_obsolete_files_period_sec,
                self.titan_stats_dump_period_sec,
            ));
        }
        s
    }
}

} // verus!
