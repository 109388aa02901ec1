//! Tidying the names of C++ functions: spaces between closing angle
//! brackets go, and the spelled-out standard string type becomes
//! `std::string`.

use vstd::prelude::*;

verus! {

/// `s` with each occurrence of `from`, from the left and not overlapping,
/// replaced by `to`.
pub open spec fn replaced_all(s: Seq<char>, from: Seq<char>, to: Seq<char>) -> Seq<char>
    decreases s.len(),
{
    if s.len() == 0 || from.len() == 0 {
        s
    } else if from.len() <= s.len() && s.subrange(0, from.len() as int) == from {
        to + replaced_all(s.subrange(from.len() as int, s.len() as int), from, to)
    } else {
        seq![s[0]] + replaced_all(s.drop_first(), from, to)
    }
}

/// Whether `pattern` occurs in `s` at `i`.
fn occurs_at(s: &str, i: usize, pattern: &str) -> (r: bool)
    requires
        i <= s@.len(),
    ensures
        r == (i + pattern@.len() <= s@.len() && s@.subrange(i as int, i + pattern@.len()) == pattern@),
{
    let n = s.unicode_len();
    let m = pattern.unicode_len();
    if m > n - i {
        return false;
    }
    let mut k: usize = 0;
    while k < m
        invariant
            n == s@.len(),
            m == pattern@.len(),
            i + m <= n,
            0 <= k <= m,
            forall|j: int| 0 <= j < k ==> s@[i + j] == pattern@[j],
        decreases m - k,
    {
        if s.get_char(i + k) != pattern.get_char(k) {
            proof {
                assert(s@.subrange(i as int, i + m)[k as int] != pattern@[k as int]);
            }
            return false;
        }
        k = k + 1;
    }
    proof {
        assert(s@.subrange(i as int, i + m) =~= pattern@);
    }
    true
}

/// `s` with each occurrence of `from` replaced by `to`.
pub fn replace_all(s: &str, from: &str, to: &str) -> (out: String)
    requires
        from@.len() > 0,
    ensures
        out@ == replaced_all(s@, from@, to@),
{
    let n = s.unicode_len();
    let m = from.unicode_len();
    let mut out = String::new();
    let mut i: usize = 0;
    proof {
        assert(s@.subrange(0, n as int) =~= s@);
    }
    while i < n
        invariant
            n == s@.len(),
            m == from@.len(),
            m > 0,
            0 <= i <= n,
            out@ + replaced_all(s@.subrange(i as int, n as int), from@, to@) == replaced_all(s@, from@, to@),
        decreases n - i,
    {
        let ghost rest = s@.subrange(i as int, n as int);
        if occurs_at(s, i, from) {
            proof {
                assert(rest.subrange(0, m as int) =~= s@.subrange(i as int, i + m));
                assert(rest.subrange(m as int, rest.len() as int) =~= s@.subrange(i + m, n as int));
                assert(out@ + to@ + replaced_all(s@.subrange(i + m, n as int), from@, to@) =~= out@ + replaced_all(
                    rest,
                    from@,
                    to@,
                ));
            }
            out.append(to);
            i = i + m;
        } else {
            let one = s.substring_char(i, i + 1);
            proof {
                if m <= rest.len() {
                    assert(rest.subrange(0, m as int) =~= s@.subrange(i as int, i + m));
                }
                assert(rest.drop_first() =~= s@.subrange(i + 1, n as int));
                assert(one@ =~= seq![rest[0]]);
                assert(out@ + one@ + replaced_all(s@.subrange(i + 1, n as int), from@, to@) =~= out@ + replaced_all(
                    rest,
                    from@,
                    to@,
                ));
            }
            out.append(one);
            i = i + 1;
        }
    }
    proof {
        assert(s@.subrange(n as int, n as int) =~= Seq::<char>::empty());
        assert(out@ + Seq::<char>::empty() =~= out@);
    }
    out
}

/// The name of the standard string type as C++ compilers spell it out.
pub open spec fn spelled_out_string() -> Seq<char> {
    "std::__cxx11::basic_string<char, std::char_traits<char>, std::allocator<char>>"@
}

/// A function's name tidied: each `> >` becomes `>>`, then each spelled-out
/// standard string type becomes `std::string`.
pub fn clean_symbol(input: &str) -> (cleaned: String)
    ensures
        cleaned@ == replaced_all(replaced_all(input@, "> >"@, ">>"@), spelled_out_string(), "std::string"@),
{
    proof {
        reveal_strlit("> >");
        reveal_strlit("std::__cxx11::basic_string<char, std::char_traits<char>, std::allocator<char>>");
    }
    let joined = replace_all(input, "> >", ">>");
    replace_all(joined.as_str(), "std::__cxx11::basic_string<char, std::char_traits<char>, std::allocator<char>>", "std::string")
}

} // verus!
