//! An SGX EPID quote held as bytes: its length checks and its hash check.
use vstd::prelude::*;
use vstd::slice::{slice_subrange, slice_to_vec};
use crate::errno::Errno;

verus! {

/// The size of the fixed part of an SGX quote, up to and including the signature length.
pub const SGX_QUOTE_SIZE: usize = 436;
/// Where the signature length lies in an SGX quote.
pub const SIGNATURE_LEN_OFFSET: usize = 432;

/// The little-endian `u32` in the four bytes at `i`.
pub open spec fn le_u32(b: Seq<u8>, i: int) -> int {
    b[i] + b[i + 1] * 0x100 + b[i + 2] * 0x10000 + b[i + 3] * 0x1000000
}

/// The size of the quote in `b`: its fixed part and its signature.
pub open spec fn quote_size_spec(b: Seq<u8>) -> int {
    SGX_QUOTE_SIZE + le_u32(b, SIGNATURE_LEN_OFFSET as int)
}

/// The status of an SGX call that succeeded.
pub const SGX_SUCCESS: u32 = 0;
/// The status of an SGX call whose service is busy for the moment.
pub const SGX_ERROR_BUSY: u32 = 0x400a;

/// The length to hand to the quoting service for a signature revocation list of `sigrl_len`
/// bytes, if there is one: `EINVAL` when it does not fit in 32 bits.
pub fn sigrl_size(sigrl_len: Option<usize>) -> (r: Result<u32, Errno>)
    ensures
        sigrl_len is None ==> r == Ok::<u32, Errno>(0),
        sigrl_len matches Some(n) ==> (n > u32::MAX ==> r == Err::<u32, Errno>(Errno::EINVAL))
            && (n <= u32::MAX ==> r == Ok::<u32, Errno>(n as u32)),
{
    match sigrl_len {
        None => Ok(0),
        Some(n) => {
            if n > 0xffff_ffffusize {
                Err(Errno::EINVAL)
            } else {
                Ok(n as u32)
            }
        },
    }
}

/// What the status `status` of a call to the quoting service means: success, `EBUSY` when the
/// service is busy for the moment, `EINVAL` for any other failure.
pub fn quote_call_result(status: u32) -> (r: Result<(), Errno>)
    ensures
        status == SGX_SUCCESS ==> r == Ok::<(), Errno>(()),
        status == SGX_ERROR_BUSY ==> r == Err::<(), Errno>(Errno::EBUSY),
        status != SGX_SUCCESS && status != SGX_ERROR_BUSY ==> r == Err::<(), Errno>(Errno::EINVAL),
{
    if status == SGX_SUCCESS {
        Ok(())
    } else if status == SGX_ERROR_BUSY {
        Err(Errno::EBUSY)
    } else {
        Err(Errno::EINVAL)
    }
}

/// What the report of the quoting enclave must share with the target that it was made for:
/// the enclave measurement and the attribute flags and xfrm.
#[derive(Clone, Copy, Debug)]
pub struct EnclaveIdentity {
    pub mr_enclave: [u8; 32],
    pub flags: u64,
    pub xfrm: u64,
}

/// The report of the quoting enclave was produced on the same platform as its target: the
/// measurement and the attributes agree (`EINVAL` otherwise).
pub fn validate_platform(target: &EnclaveIdentity, report: &EnclaveIdentity) -> (r: Result<(), Errno>)
    ensures
        r is Ok <==> target.mr_enclave@ == report.mr_enclave@ && target.flags == report.flags
            && target.xfrm == report.xfrm,
        r is Err ==> r == Err::<(), Errno>(Errno::EINVAL),
{
    let mut i: usize = 0;
    while i < 32
        invariant
            i <= 32,
            forall|k: int| 0 <= k < i ==> target.mr_enclave@[k] == report.mr_enclave@[k],
        decreases 32 - i,
    {
        if target.mr_enclave[i] != report.mr_enclave[i] {
            return Err(Errno::EINVAL);
        }
        i = i + 1;
    }
    assert(target.mr_enclave@ =~= report.mr_enclave@);
    if target.flags != report.flags || target.xfrm != report.xfrm {
        return Err(Errno::EINVAL);
    }
    Ok(())
}

/// A quote whose length and hash have been checked.
#[derive(Debug, Clone)]
pub struct Quote {
    quote_buf: Vec<u8>,
}

impl Quote {
    pub closed spec fn bytes(&self) -> Seq<u8> {
        self.quote_buf@
    }

    /// The bytes of the quote at the start of `quote_raw_buf`: the buffer must hold the fixed
    /// part of a quote and the signature that it announces.
    pub fn new_buf(quote_raw_buf: &[u8]) -> (r: Result<Vec<u8>, Errno>)
        ensures
            r is Err <==> quote_raw_buf@.len() < SGX_QUOTE_SIZE || quote_size_spec(quote_raw_buf@) > quote_raw_buf@.len(),
            r is Err ==> r == Err::<Vec<u8>, Errno>(Errno::EINVAL),
            r matches Ok(v) ==> v@ == quote_raw_buf@.subrange(0, quote_size_spec(quote_raw_buf@)),
    {
        if quote_raw_buf.len() < SGX_QUOTE_SIZE {
            return Err(Errno::EINVAL);
        }
        let b0 = quote_raw_buf[SIGNATURE_LEN_OFFSET] as usize;
        let b1 = quote_raw_buf[SIGNATURE_LEN_OFFSET + 1] as usize;
        let b2 = quote_raw_buf[SIGNATURE_LEN_OFFSET + 2] as usize;
        let b3 = quote_raw_buf[SIGNATURE_LEN_OFFSET + 3] as usize;
        let signature_len: usize = b0 + b1 * 0x100 + b2 * 0x10000 + b3 * 0x1000000;
        if signature_len > quote_raw_buf.len() - SGX_QUOTE_SIZE {
            return Err(Errno::EINVAL);
        }
        let quote_size = SGX_QUOTE_SIZE + signature_len;
        Ok(slice_to_vec(slice_subrange(quote_raw_buf, 0, quote_size)))
    }

    /// The quote at the start of `quote_raw_buf`, checked: the buffer must hold the fixed part
    /// of a quote and the signature that it announces, and the first 32 bytes of the report
    /// data of the quoting enclave's report must equal `actual_hash`, the hash of the nonce
    /// followed by the quote's bytes.
    pub fn new(quote_raw_buf: &[u8], report_data: &[u8], actual_hash: &[u8]) -> (r: Result<Self, Errno>)
        requires
            report_data@.len() >= 32,
        ensures
            r is Err <==> quote_raw_buf@.len() < SGX_QUOTE_SIZE || quote_size_spec(quote_raw_buf@) > quote_raw_buf@.len()
                || report_data@.subrange(0, 32) != actual_hash@,
            r is Err ==> r == Err::<Self, Errno>(Errno::EINVAL),
            r matches Ok(q) ==> q.bytes() == quote_raw_buf@.subrange(0, quote_size_spec(quote_raw_buf@)),
    {
        let quote_buf = Self::new_buf(quote_raw_buf)?;
        let expected_hash = slice_subrange(report_data, 0, 32);
        if !bytes_equal(expected_hash, actual_hash) {
            return Err(Errno::EINVAL);
        }
        Ok(Quote { quote_buf })
    }

    /// The signature: what follows the fixed part.
    pub fn get_signature(&self) -> (r: &[u8])
        requires
            self.bytes().len() >= SGX_QUOTE_SIZE,
        ensures
            r@ == self.bytes().subrange(SGX_QUOTE_SIZE as int, self.bytes().len() as int),
    {
        slice_subrange(self.quote_buf.as_slice(), SGX_QUOTE_SIZE, self.quote_buf.len())
    }

    pub fn get_size(&self) -> (r: usize)
        ensures
            r == self.bytes().len(),
    {
        self.quote_buf.len()
    }

    /// Copy the quote to the start of `dst_buf`, which must be big enough.
    pub fn dump_to_buf(&self, dst_buf: &mut [u8]) -> (r: Result<(), Errno>)
        ensures
            r is Err <==> self.bytes().len() > old(dst_buf)@.len(),
            r is Err ==> r == Err::<(), Errno>(Errno::EINVAL) && final(dst_buf)@ == old(dst_buf)@,
            r is Ok ==> final(dst_buf)@ == self.bytes() + old(dst_buf)@.subrange(self.bytes().len() as int, old(dst_buf)@.len() as int),
    {
        let n = self.quote_buf.len();
        if n > dst_buf.len() {
            return Err(Errno::EINVAL);
        }
        let mut i: usize = 0;
        while i < n
            invariant
                n == self.bytes().len(),
                n <= dst_buf@.len(),
                dst_buf@.len() == old(dst_buf)@.len(),
                i <= n,
                forall|k: int| 0 <= k < i ==> dst_buf@[k] == self.bytes()[k],
                forall|k: int| n <= k < dst_buf@.len() ==> dst_buf@[k] == old(dst_buf)@[k],
            decreases n - i,
        {
            dst_buf[i] = self.quote_buf[i];
            i = i + 1;
        }
        assert(dst_buf@ =~= self.bytes() + old(dst_buf)@.subrange(n as int, old(dst_buf)@.len() as int));
        Ok(())
    }
}

/// Whether the two byte strings are equal.
fn bytes_equal(a: &[u8], b: &[u8]) -> (r: bool)
    ensures
        r == (a@ == b@),
{
    if a.len() != b.len() {
        return false;
    }
    let mut i: usize = 0;
    while i < a.len()
        invariant
            a@.len() == b@.len(),
            i <= a@.len(),
            forall|k: int| 0 <= k < i ==> a@[k] == b@[k],
        decreases a@.len() - i,
    {
        if a[i] != b[i] {
            return false;
        }
        i = i + 1;
    }
    assert(a@ =~= b@);
    true
}

/// What a DCAP quote verifier needs: the size of the supplemental data.
#[derive(Clone, Copy, Debug)]
pub struct QuoteVerifier {
    supplemental_data_size: u32,
}

impl QuoteVerifier {
    /// A verifier, when the platform answered with success and a nonzero size.
    pub fn from_supplement_size(status_ok: bool, supplemental_data_size: u32) -> (r: Option<Self>)
        ensures
            r is Some <==> status_ok && supplemental_data_size != 0,
            r matches Some(v) ==> v.spec_size() == supplemental_data_size,
    {
        if !status_ok || supplemental_data_size == 0 {
            None
        } else {
            Some(QuoteVerifier { supplemental_data_size })
        }
    }

    pub closed spec fn spec_size(&self) -> u32 {
        self.supplemental_data_size
    }

    pub fn get_supplemental_data_size(&self) -> (r: u32)
        ensures
            r == self.spec_size(),
    {
        self.supplemental_data_size
    }
}

} // verus!
