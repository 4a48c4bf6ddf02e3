//! Path conventions shared with the callers that do the actual file I/O.

use vstd::prelude::*;

use crate::error::MissingCommandLineArgumentError;

verus! {

pub open spec fn dash_path() -> Seq<u8> {
    seq![('-' as u8)]
}

pub open spec fn stdout_path() -> Seq<u8> {
    seq![
        ('/' as u8), ('d' as u8), ('e' as u8), ('v' as u8), ('/' as u8), ('s' as u8), ('t' as u8),
        ('d' as u8), ('o' as u8), ('u' as u8), ('t' as u8),
    ]
}

pub open spec fn stdin_path() -> Seq<u8> {
    seq![
        ('/' as u8), ('d' as u8), ('e' as u8), ('v' as u8), ('/' as u8), ('s' as u8), ('t' as u8),
        ('d' as u8), ('i' as u8), ('n' as u8),
    ]
}

/// Whether a path denotes the standard streams rather than a file.
pub open spec fn spec_is_terminal_io_file(path: Seq<u8>) -> bool {
    path == dash_path() || path == stdout_path() || path == stdin_path()
}

pub fn is_terminal_io_file(path: &[u8]) -> (r: bool)
    ensures
        r == spec_is_terminal_io_file(path@),
{
    let mut dash: Vec<u8> = Vec::new();
    dash.push('-' as u8);
    proof {
        assert(dash@ =~= dash_path());
    }
    if crate::text::bytes_eq(path, dash.as_slice()) {
        proof {
            assert(path@ == dash_path());
        }
        return true;
    }
    let mut out: Vec<u8> = Vec::new();
    out.push('/' as u8);
    out.push('d' as u8);
    out.push('e' as u8);
    out.push('v' as u8);
    out.push('/' as u8);
    out.push('s' as u8);
    out.push('t' as u8);
    out.push('d' as u8);
    out.push('o' as u8);
    out.push('u' as u8);
    out.push('t' as u8);
    proof {
        assert(out@ =~= stdout_path());
    }
    if crate::text::bytes_eq(path, out.as_slice()) {
        proof {
            assert(path@ == stdout_path());
        }
        return true;
    }
    let mut inp: Vec<u8> = Vec::new();
    inp.push('/' as u8);
    inp.push('d' as u8);
    inp.push('e' as u8);
    inp.push('v' as u8);
    inp.push('/' as u8);
    inp.push('s' as u8);
    inp.push('t' as u8);
    inp.push('d' as u8);
    inp.push('i' as u8);
    inp.push('n' as u8);
    proof {
        assert(inp@ =~= stdin_path());
    }
    if crate::text::bytes_eq(path, inp.as_slice()) {
        proof {
            assert(path@ == stdin_path());
        }
        return true;
    }
    proof {
        assert(!(path@ =~= dash_path()));
        assert(!(path@ =~= stdout_path()));
        assert(!(path@ =~= stdin_path()));
    }
    false
}

/// An upstream artifact that the requested action needs: its value, or
/// the name of the missing flag.
pub fn require_initialization<'a, T>(value: &'a Option<T>, cli_argument: &str) -> (r: Result<
    &'a T,
    MissingCommandLineArgumentError,
>)
    ensures
        r is Ok <==> value is Some,
        r is Ok ==> r->Ok_0 == &value->0,
        r is Err ==> r->Err_0.spec_argument() == cli_argument@,
{
    match value {
        Some(v) => Ok(v),
        None => Err(MissingCommandLineArgumentError::new(cli_argument)),
    }
}

} // verus!
