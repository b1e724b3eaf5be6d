//! Row selection for the trimming stage: keeping only the relevant columns
//! of the raw trace, and skipping rows with no recorded usage.

use vstd::prelude::*;

use crate::error::TraceError;

verus! {

/// A copy of a byte vector, made element by element.
fn copy_bytes(v: &Vec<u8>) -> (r: Vec<u8>)
    ensures
        r@ == v@,
{
    let mut out: Vec<u8> = Vec::new();
    let mut i: usize = 0;
    while i < v.len()
        invariant
            i <= v@.len(),
            out@ == v@.take(i as int),
        decreases v@.len() - i,
    {
        out.push(v[i]);
        proof {
            assert(v@.take(i as int).push(v@[i as int]) =~= v@.take(i as int + 1));
        }
        i = i + 1;
    }
    proof {
        assert(v@.take(v@.len() as int) =~= v@);
    }
    out
}

/// Decides what the trimming stage does with one raw row, given as its
/// fields: a row with no column 5 is malformed; a row whose average usage
/// column is exactly `0` is skipped; any other row is reduced to the four
/// kept columns, in order.
pub fn trim_row(fields: &Vec<Vec<u8>>) -> (r: Result<Option<Vec<Vec<u8>>>, TraceError>)
    ensures
        fields@.len() <= 5 ==> r == Err::<Option<Vec<Vec<u8>>>, TraceError>(
            TraceError::MalformedRecord,
        ),
        fields@.len() > 5 && fields@[5]@ == seq![48u8] ==> r == Ok::<
            Option<Vec<Vec<u8>>>,
            TraceError,
        >(None),
        fields@.len() > 5 && fields@[5]@ != seq![48u8] ==> (match r {
            Ok(Some(kept)) => {
                &&& kept@.len() == 4
                &&& kept@[0]@ == fields@[0]@
                &&& kept@[1]@ == fields@[1]@
                &&& kept@[2]@ == fields@[4]@
                &&& kept@[3]@ == fields@[5]@
            },
            _ => false,
        }),
{
    if fields.len() <= 5 {
        return Err(TraceError::MalformedRecord);
    }
    let f5 = &fields[5];
    if f5.len() == 1 && f5[0] == 48 {
        proof {
            assert(fields@[5]@ =~= seq![48u8]);
        }
        return Ok(None);
    }
    proof {
        if fields@[5]@ == seq![48u8] {
            assert(fields@[5]@.len() == 1 && fields@[5]@[0] == 48u8);
        }
    }
    let mut kept: Vec<Vec<u8>> = Vec::new();
    kept.push(copy_bytes(&fields[0]));
    kept.push(copy_bytes(&fields[1]));
    kept.push(copy_bytes(&fields[4]));
    kept.push(copy_bytes(&fields[5]));
    Ok(Some(kept))
}

} // verus!
