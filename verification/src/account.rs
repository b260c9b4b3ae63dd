//! The ICP ledger's 32-byte account identifier.
//!
//! The wire format is fixed: the identifier is the CRC-32 checksum (big
//! endian) of a SHA-224 digest, followed by that digest; the digest covers
//! a domain-separation prefix, the owner's principal bytes, and a 32-byte
//! subaccount.  Deposits are verified against this exact representation.

use vstd::prelude::*;

use crate::digest::{crc32, crc32_of, sha224, sha224_of};
use crate::hex;

verus! {

/// The domain-separation prefix: a length byte, then the text
/// `account-id`.
pub open spec fn account_domain_prefix() -> Seq<u8> {
    seq![10u8, 97u8, 99u8, 99u8, 111u8, 117u8, 110u8, 116u8, 45u8, 105u8, 100u8]
}

/// A 32-bit checksum written big endian.
pub open spec fn be32(x: u32) -> Seq<u8> {
    seq![
        ((x as int) / 0x1000000 % 256) as u8,
        ((x as int) / 0x10000 % 256) as u8,
        ((x as int) / 0x100 % 256) as u8,
        ((x as int) % 256) as u8,
    ]
}

/// The account identifier of an owner and subaccount.
pub open spec fn account_id_of(owner: Seq<u8>, subaccount: Seq<u8>) -> Seq<u8> {
    let h = sha224_of(account_domain_prefix() + owner + subaccount);
    be32(crc32_of(h)) + h
}

/// The all-zero default subaccount.
pub fn default_subaccount() -> (r: Vec<u8>)
    ensures
        r@ =~= Seq::new(32, |i: int| 0u8),
{
    let mut out: Vec<u8> = Vec::new();
    let mut i: usize = 0;
    while i < 32
        invariant
            i <= 32,
            out@ =~= Seq::new(i as nat, |m: int| 0u8),
        decreases 32 - i,
    {
        out.push(0);
        proof {
            assert(out@ =~= Seq::new((i + 1) as nat, |m: int| 0u8));
        }
        i = i + 1;
    }
    out
}

/// Computes the account identifier: checksum-prefixed SHA-224 of the
/// domain prefix, the owner bytes, and the subaccount.
pub fn compute_account_identifier(owner: &Vec<u8>, subaccount: &Vec<u8>) -> (r: Vec<u8>)
    ensures
        r@ == account_id_of(owner@, subaccount@),
        r@.len() == 32,
{
    let mut preimage: Vec<u8> = Vec::new();
    preimage.push(10);
    preimage.push(97);
    preimage.push(99);
    preimage.push(99);
    preimage.push(111);
    preimage.push(117);
    preimage.push(110);
    preimage.push(116);
    preimage.push(45);
    preimage.push(105);
    preimage.push(100);
    proof {
        assert(preimage@ =~= account_domain_prefix());
    }
    let mut k: usize = 0;
    while k < owner.len()
        invariant
            k <= owner@.len(),
            preimage@ =~= account_domain_prefix() + owner@.take(k as int),
        decreases owner@.len() - k,
    {
        preimage.push(owner[k]);
        proof {
            assert(preimage@ =~= account_domain_prefix() + owner@.take(k + 1));
        }
        k = k + 1;
    }
    proof {
        assert(owner@.take(owner@.len() as int) =~= owner@);
    }
    let mut k: usize = 0;
    while k < subaccount.len()
        invariant
            k <= subaccount@.len(),
            preimage@ =~= account_domain_prefix() + owner@ + subaccount@.take(k as int),
        decreases subaccount@.len() - k,
    {
        preimage.push(subaccount[k]);
        proof {
            assert(preimage@ =~= account_domain_prefix() + owner@ + subaccount@.take(k + 1));
        }
        k = k + 1;
    }
    proof {
        assert(subaccount@.take(subaccount@.len() as int) =~= subaccount@);
    }
    let digest = sha224(&preimage);
    let crc = crc32(&digest);
    let mut out: Vec<u8> = Vec::new();
    out.push(((crc / 0x1000000) % 256) as u8);
    out.push(((crc / 0x10000) % 256) as u8);
    out.push(((crc / 0x100) % 256) as u8);
    out.push((crc % 256) as u8);
    proof {
        assert(out@ =~= be32(crc32_of(digest@)));
    }
    let out = crate::eval::push_all(out, &digest);
    proof {
        assert(out@ =~= account_id_of(owner@, subaccount@));
    }
    out
}

/// The hex text of the instance's deposit address.
pub fn deposit_address_hex(owner: &Vec<u8>) -> (r: String)
    ensures
        r@ == hex::hex_of(account_id_of(owner@, Seq::new(32, |i: int| 0u8))),
{
    let sub = default_subaccount();
    let id = compute_account_identifier(owner, &sub);
    hex::encode(&id)
}

/// Does an incoming transfer pay this instance?  Exactly when the
/// recipient bytes are this instance's 32-byte account identifier and the
/// amount is not zero.
pub fn verify_icp_transfer(to: &Vec<u8>, expected: &Vec<u8>, amount: u64) -> (r: bool)
    ensures
        r == (to@ == expected@ && to@.len() == 32 && amount > 0),
{
    if amount == 0 {
        return false;
    }
    if to.len() != 32 || expected.len() != 32 {
        proof {
            if to@.len() == 32 && to@ == expected@ {
                assert(expected@.len() == 32);
            }
        }
        return false;
    }
    let mut k: usize = 0;
    while k < 32
        invariant
            to@.len() == 32,
            expected@.len() == 32,
            k <= 32,
            forall|m: int| 0 <= m < k ==> to@[m] == expected@[m],
        decreases 32 - k,
    {
        if to[k] != expected[k] {
            return false;
        }
        k = k + 1;
    }
    proof {
        assert(to@ =~= expected@);
    }
    true
}

/// Does an incoming ckBTC transfer pay this instance?  Exactly when the
/// recipient record's owner bytes are this instance's principal bytes and
/// the amount is not zero; the ckBTC ledger addresses accounts by the
/// owner record directly, with no hashed identifier.
pub fn verify_ckbtc_transfer(owner: &Vec<u8>, self_owner: &Vec<u8>, amount: u64) -> (r: bool)
    ensures
        r == (owner@ == self_owner@ && amount > 0),
{
    if amount == 0 {
        return false;
    }
    if owner.len() != self_owner.len() {
        proof {
            if owner@ == self_owner@ {
                assert(owner@.len() == self_owner@.len());
            }
        }
        return false;
    }
    let n = owner.len();
    let mut k: usize = 0;
    while k < n
        invariant
            n == owner@.len(),
            n == self_owner@.len(),
            k <= n,
            forall|m: int| 0 <= m < k ==> owner@[m] == self_owner@[m],
        decreases n - k,
    {
        if owner[k] != self_owner[k] {
            return false;
        }
        k = k + 1;
    }
    proof {
        assert(owner@ =~= self_owner@);
    }
    true
}

} // verus!
