//! The compiler's command-line arguments, and the name of its output files.
use vstd::prelude::*;
use crate::text::{push_char, str_chars};

verus! {

/// The compiler's command-line arguments: the source file, an optional
/// name for the output, and which intermediate files to keep.
#[derive(Debug)]
pub struct Cli {
    pub file_name: String,
    pub output: Option<String>,
    pub tokens: bool,
    pub ast: bool,
    pub assembly: bool,
    pub object: bool,
}

/// The index of the last period in `s`, or -1 if it holds none.
pub open spec fn last_period(s: Seq<char>) -> int
    decreases s.len(),
{
    if s.len() == 0 {
        -1
    } else if s.last() == '.' {
        s.len() - 1
    } else {
        last_period(s.drop_last())
    }
}

/// The stem of a file name: the name without its extension. A name with no
/// period, or whose only period is its first character, is its own stem, and
/// so is `..`; otherwise the stem is what comes before the last period.
pub open spec fn file_stem_of(name: Seq<char>) -> Seq<char> {
    if last_period(name) <= 0 || name == seq!['.', '.'] {
        name
    } else {
        name.subrange(0, last_period(name))
    }
}

/// The stem of a file name, as `std::path::Path::file_stem` gives it for a
/// name of one component.
pub fn file_stem(name: &str) -> (r: String)
    ensures
        r@ == file_stem_of(name@),
{
    let chars = str_chars(name);
    let mut i = chars.len();
    assert(chars@.take(i as int) =~= chars@);
    while i > 0 && chars[i - 1] != '.'
        invariant
            i <= chars@.len(),
            chars@ == name@,
            last_period(chars@) == last_period(chars@.take(i as int)),
        decreases i,
    {
        proof {
            assert(chars@.take(i as int).drop_last() =~= chars@.take(i - 1));
        }
        i -= 1;
    }
    proof {
        if i > 0 {
            assert(chars@.take(i as int).last() == '.');
        } else {
            assert(chars@.take(0) =~= Seq::<char>::empty());
        }
    }
    if i <= 1 || (chars.len() == 2 && chars[0] == '.' && chars[1] == '.') {
        proof {
            if chars.len() == 2 && chars[0] == '.' && chars[1] == '.' {
                assert(chars@ =~= seq!['.', '.']);
            }
        }
        return String::from_str(name);
    }
    proof {
        if chars@ == seq!['.', '.'] {
            assert(chars@[0] == '.' && chars@[1] == '.');
        }
    }
    let end = i - 1;
    let mut stem = String::new();
    let mut j: usize = 0;
    while j < end
        invariant
            j <= end,
            end < chars@.len(),
            stem@ == chars@.take(j as int),
        decreases end - j,
    {
        push_char(&mut stem, chars[j]);
        j += 1;
        assert(stem@ =~= chars@.take(j as int));
    }
    assert(chars@.take(end as int) =~= chars@.subrange(0, end as int));
    stem
}

/// The base name of the compiler's output files: the name given with the
/// arguments, or else the stem of the source file's name. Without either,
/// there is none.
pub fn output_file_name(output: Option<String>, file_name: Option<String>) -> (r: Option<String>)
    ensures
        match output {
            Some(o) => r == Some(o),
            None => match file_name {
                Some(f) => r is Some && r->0@ == file_stem_of(f@),
                None => r is None,
            },
        },
{
    match output {
        Some(o) => Some(o),
        None => match file_name {
            Some(f) => Some(file_stem(f.as_str())),
            None => None,
        },
    }
}

/// Periods after the last one leave the last period where it was.
proof fn lemma_last_period_after(x: Seq<char>, e: Seq<char>)
    requires
        forall|i: int| 0 <= i < e.len() ==> e[i] != '.',
    ensures
        last_period(x + e) == last_period(x),
    decreases e.len(),
{
    if e.len() > 0 {
        assert((x + e).drop_last() =~= x + e.drop_last());
        assert((x + e).last() == e.last());
        lemma_last_period_after(x, e.drop_last());
    } else {
        assert(x + e =~= x);
    }
}

/// The stem of `s.e`, for a nonempty `s` and an extension `e` without
/// periods, is `s`: the extension and its period are dropped, and only they
/// (`..` alone, as the parent directory's name, keeps its whole name).
pub proof fn lemma_file_stem_drops_extension(s: Seq<char>, e: Seq<char>)
    requires
        s.len() > 0,
        forall|i: int| 0 <= i < e.len() ==> e[i] != '.',
        !(s == seq!['.'] && e.len() == 0),
    ensures
        file_stem_of(s + seq!['.'] + e) == s,
{
    let name = s + seq!['.'] + e;
    lemma_last_period_after(s + seq!['.'], e);
    assert((s + seq!['.']).drop_last() =~= s);
    assert((s + seq!['.']).last() == '.');
    assert(last_period(name) == s.len());
    if name == seq!['.', '.'] {
        assert(name.len() == 2);
        assert(s.len() == 1 && e.len() == 0);
        assert(s[0] == name[0]);
        assert(s =~= seq!['.']);
    }
    assert(name.subrange(0, s.len() as int) =~= s);
}

/// A name with no period after its first character is its own stem.
pub proof fn lemma_file_stem_without_extension(name: Seq<char>)
    requires
        forall|i: int| 1 <= i < name.len() ==> name[i] != '.',
    ensures
        file_stem_of(name) == name,
{
    if name.len() > 0 {
        let first = name.take(1);
        let rest = name.skip(1);
        assert(name =~= first + rest);
        assert forall|i: int| 0 <= i < rest.len() implies rest[i] != '.' by {
            assert(rest[i] == name[i + 1]);
        }
        lemma_last_period_after(first, rest);
        assert(first.drop_last() =~= Seq::<char>::empty());
        assert(last_period(first.drop_last()) == -1);
        assert(last_period(first) <= 0);
    }
}

} // verus!
