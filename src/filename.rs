//! Names of the files in a database directory.
use vstd::prelude::*;

use crate::segment::FileId;

verus! {

/// The width to which file ids are padded with leading zeros.
pub const ID_WIDTH: u64 = 9;

/// The kinds of file in a database directory.
#[derive(Debug, Clone, Copy, PartialEq, Eq, Structural)]
pub enum FileType {
    /// A data segment that accepts writes.
    Log,
    /// A data segment rewritten by compaction.
    Rewrite,
    /// Precomputed index hints for one segment.
    Hint,
    /// The append-only log of version edits.
    Manifest,
    /// The single-instance lock.
    Lock,
    /// Names the active manifest.
    Current,
}

pub open spec fn digit_char(d: nat) -> char {
    if d == 0 {
        '0'
    } else if d == 1 {
        '1'
    } else if d == 2 {
        '2'
    } else if d == 3 {
        '3'
    } else if d == 4 {
        '4'
    } else if d == 5 {
        '5'
    } else if d == 6 {
        '6'
    } else if d == 7 {
        '7'
    } else if d == 8 {
        '8'
    } else {
        '9'
    }
}

/// The decimal digits of `n`, most significant first, without leading zeros.
pub open spec fn decimal(n: nat) -> Seq<char>
    decreases n,
{
    if n < 10 {
        seq![digit_char(n)]
    } else {
        decimal(n / 10).push(digit_char(n % 10))
    }
}

/// `n` in decimal, padded with leading zeros to at least `ID_WIDTH` digits.
pub open spec fn padded_id(n: nat) -> Seq<char> {
    let d = decimal(n);
    if d.len() < ID_WIDTH {
        Seq::new((ID_WIDTH - d.len()) as nat, |i: int| '0') + d
    } else {
        d
    }
}

/// The name of a file of kind `t` with id `id`.
pub open spec fn filename_spec(t: FileType, id: nat) -> Seq<char> {
    match t {
        FileType::Log => padded_id(id) + ".dat"@,
        FileType::Rewrite => padded_id(id) + ".rew"@,
        FileType::Hint => padded_id(id) + ".hit"@,
        FileType::Manifest => "MANIFEST-"@ + padded_id(id),
        FileType::Lock => "LOCK"@,
        FileType::Current => "CURRENT"@,
    }
}

/// `name` inside directory `dir`, with one separator between them.
pub open spec fn join_path(dir: Seq<char>, name: Seq<char>) -> Seq<char> {
    if dir.len() == 0 {
        name
    } else if dir.last() == '/' {
        dir + name
    } else {
        dir + seq!['/'] + name
    }
}

fn digit_str(d: u64) -> (r: &'static str)
    requires
        d < 10,
    ensures
        r@ == seq![digit_char(d as nat)],
{
    proof {
        reveal_strlit("0");
        reveal_strlit("1");
        reveal_strlit("2");
        reveal_strlit("3");
        reveal_strlit("4");
        reveal_strlit("5");
        reveal_strlit("6");
        reveal_strlit("7");
        reveal_strlit("8");
        reveal_strlit("9");
    }
    let r = if d == 0 {
        "0"
    } else if d == 1 {
        "1"
    } else if d == 2 {
        "2"
    } else if d == 3 {
        "3"
    } else if d == 4 {
        "4"
    } else if d == 5 {
        "5"
    } else if d == 6 {
        "6"
    } else if d == 7 {
        "7"
    } else if d == 8 {
        "8"
    } else {
        "9"
    };
    assert(r@ =~= seq![digit_char(d as nat)]);
    r
}

fn push_decimal(out: &mut String, n: u64)
    ensures
        final(out)@ == old(out)@ + decimal(n as nat),
    decreases n,
{
    if n >= 10 {
        push_decimal(out, n / 10);
    }
    out.append(digit_str(n % 10));
    assert(final(out)@ =~= old(out)@ + decimal(n as nat));
}

fn decimal_len(n: u64) -> (r: u64)
    ensures
        r as nat == decimal(n as nat).len(),
        r as nat <= n as nat + 1,
    decreases n,
{
    if n >= 10 {
        decimal_len(n / 10) + 1
    } else {
        1
    }
}

fn push_padded_id(out: &mut String, n: u64)
    ensures
        final(out)@ == old(out)@ + padded_id(n as nat),
{
    let ghost start = out@;
    let len = decimal_len(n);
    let mut i: u64 = len;
    while i < ID_WIDTH
        invariant
            len <= i,
            len <= ID_WIDTH ==> i <= ID_WIDTH,
            len > ID_WIDTH ==> i == len,
            len == decimal(n as nat).len(),
            out@ == start + Seq::new((i - len) as nat, |j: int| '0'),
        decreases ID_WIDTH - i,
    {
        proof {
            reveal_strlit("0");
        }
        out.append("0");
        i = i + 1;
        assert(out@ =~= start + Seq::new((i - len) as nat, |j: int| '0'));
    }
    push_decimal(out, n);
    if len < ID_WIDTH {
        assert(out@ =~= start + padded_id(n as nat));
    } else {
        assert(i == len);
        assert(Seq::new((i - len) as nat, |j: int| '0') =~= Seq::<char>::empty());
        assert(out@ =~= start + padded_id(n as nat));
    }
}

impl FileType {
    /// The name of the file of this kind with id `file_id`; the lock and
    /// pointer files have fixed names and ignore the id.
    pub fn get_filename(&self, file_id: FileId) -> (r: String)
        ensures
            r@ == filename_spec(*self, file_id as nat),
    {
        let mut out = String::new();
        match self {
            FileType::Log => {
                push_padded_id(&mut out, file_id);
                out.append(".dat");
            },
            FileType::Rewrite => {
                push_padded_id(&mut out, file_id);
                out.append(".rew");
            },
            FileType::Hint => {
                push_padded_id(&mut out, file_id);
                out.append(".hit");
            },
            FileType::Manifest => {
                out.append("MANIFEST-");
                push_padded_id(&mut out, file_id);
            },
            FileType::Lock => {
                out.append("LOCK");
            },
            FileType::Current => {
                out.append("CURRENT");
            },
        }
        assert(out@ =~= filename_spec(*self, file_id as nat));
        out
    }

    /// The path of the file of this kind with id `file_id` inside `dbpath`.
    pub fn get_full_filepath(&self, dbpath: &str, file_id: FileId) -> (r: String)
        ensures
            r@ == join_path(dbpath@, filename_spec(*self, file_id as nat)),
    {
        let name = self.get_filename(file_id);
        let n = dbpath.unicode_len();
        let mut out = String::from_str(dbpath);
        if n > 0 && dbpath.get_char(n - 1) != '/' {
            proof {
                reveal_strlit("/");
            }
            out.append("/");
        }
        out.append(name.as_str());
        assert(out@ =~= join_path(dbpath@, filename_spec(*self, file_id as nat)));
        out
    }
}

} // verus!
