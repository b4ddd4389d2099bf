//! Validation of configuration values handed in by the command line.

use vstd::prelude::*;

verus! {

/// The path, read from its end, names a file: after discarding trailing
/// path separators and trailing `.` components, a final component remains
/// and it is not the parent-directory component `..`.
pub open spec fn has_file_name(s: Seq<char>) -> bool
    decreases s.len(),
{
    let n = s.len() as int;
    if n == 0 {
        false
    } else if s[n - 1] == '/' {
        has_file_name(s.take(n - 1))
    } else if s[n - 1] == '.' && (n == 1 || s[n - 2] == '/') {
        has_file_name(s.take(n - 1))
    } else if s[n - 1] == '.' && s[n - 2] == '.' && (n == 2 || s[n - 3] == '/') {
        false
    } else {
        true
    }
}

/// Checks that a path argument ends in a usable file name; the offending
/// path itself is handed back as the error value.
pub fn is_file(s: String) -> (r: Result<(), String>)
    ensures
        r is Ok <==> has_file_name(s@),
        r matches Err(e) ==> e@ == s@,
{
    let sl = s.as_str();
    let mut n: usize = sl.unicode_len();
    proof {
        assert(s@.take(s@.len() as int) =~= s@);
    }
    loop
        invariant
            n <= s@.len(),
            sl@ == s@,
            has_file_name(s@) == has_file_name(s@.take(n as int)),
        decreases n,
    {
        if n == 0 {
            return Err(s);
        }
        let last = sl.get_char(n - 1);
        if last == '/' {
            proof {
                assert(s@.take(n as int).take(n - 1) =~= s@.take(n - 1));
                assert(s@.take(n as int)[n - 1] == s@[n - 1]);
            }
            n = n - 1;
        } else if last == '.' && (n == 1 || sl.get_char(n - 2) == '/') {
            proof {
                assert(s@.take(n as int).take(n - 1) =~= s@.take(n - 1));
                assert(s@.take(n as int)[n - 1] == s@[n - 1]);
                if n >= 2 {
                    assert(s@.take(n as int)[n - 2] == s@[n - 2]);
                }
            }
            n = n - 1;
        } else if last == '.' && sl.get_char(n - 2) == '.' && (n == 2 || sl.get_char(n - 3)
            == '/') {
            proof {
                assert(s@.take(n as int)[n - 1] == s@[n - 1]);
                assert(s@.take(n as int)[n - 2] == s@[n - 2]);
                if n >= 3 {
                    assert(s@.take(n as int)[n - 3] == s@[n - 3]);
                }
            }
            return Err(s);
        } else {
            proof {
                assert(s@.take(n as int)[n - 1] == s@[n - 1]);
                if n >= 2 {
                    assert(s@.take(n as int)[n - 2] == s@[n - 2]);
                }
                if n >= 3 {
                    assert(s@.take(n as int)[n - 3] == s@[n - 3]);
                }
            }
            return Ok(());
        }
    }
}

} // verus!
