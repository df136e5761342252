//! Command lines of the processes the master starts, and the executable path it re-runs.
use vstd::prelude::*;
use crate::response::{decimal, is_digit};

verus! {

/// `s` is the decimal spelling of `n`, without leading zeros.
pub open spec fn spells(s: Seq<u8>, n: nat) -> bool {
    &&& s.len() > 0
    &&& forall|i: int| 0 <= i < s.len() ==> is_digit(#[trigger] s[i])
    &&& decimal(s) == n
    &&& (s.len() > 1 ==> s[0] != 48)
}

/// The decimal digits of `n`.
pub fn format_decimal(n: u64) -> (r: Vec<u8>)
    ensures
        spells(r@, n as nat),
    decreases n,
{
    if n < 10 {
        let v: Vec<u8> = vec![(n as u8) + 48];
        assert(v@.drop_last() =~= Seq::<u8>::empty());
        assert(decimal(v@) == decimal(v@.drop_last()) * 10 + (v@.last() - 48) as nat);
        assert(decimal(Seq::<u8>::empty()) == 0);
        v
    } else {
        let mut v = format_decimal(n / 10);
        let ghost v0 = v@;
        v.push(((n % 10) as u8) + 48);
        assert(v@.drop_last() =~= v0);
        assert(v@[0] == v0[0]);
        proof {
            if v0.len() == 1 {
                assert(v0.drop_last() =~= Seq::<u8>::empty());
                assert(decimal(v0) == decimal(v0.drop_last()) * 10 + (v0.last() - 48) as nat);
            }
        }
        assert(n == (n / 10) * 10 + n % 10) by (nonlinear_arith);
        assert(decimal(v@) == decimal(v0) * 10 + (v@.last() - 48) as nat);
        assert forall|i: int| 0 <= i < v@.len() implies is_digit(#[trigger] v@[i]) by {
            if i < v0.len() {
                assert(v@[i] == v0[i]);
            }
        }
        v
    }
}

pub open spec fn word_worker() -> Seq<u8> {
    seq![119u8, 111, 114, 107, 101, 114]
}

pub open spec fn word_upgrade() -> Seq<u8> {
    seq![117u8, 112, 103, 114, 97, 100, 101]
}

pub open spec fn flag_fd() -> Seq<u8> {
    seq![45u8, 45, 102, 100]
}

pub open spec fn flag_id() -> Seq<u8> {
    seq![45u8, 45, 105, 100]
}

pub open spec fn flag_channel_buffer_size() -> Seq<u8> {
    seq![45u8, 45, 99, 104, 97, 110, 110, 101, 108, 45, 98, 117, 102, 102, 101, 114, 45, 115, 105, 122, 101]
}

pub open spec fn flag_upgrade_fd() -> Seq<u8> {
    seq![45u8, 45, 117, 112, 103, 114, 97, 100, 101, 45, 102, 100]
}

pub open spec fn flag_command_buffer_size() -> Seq<u8> {
    seq![45u8, 45, 99, 111, 109, 109, 97, 110, 100, 45, 98, 117, 102, 102, 101, 114, 45, 115, 105, 122, 101]
}

pub open spec fn flag_max_command_buffer_size() -> Seq<u8> {
    seq![45u8, 45, 109, 97, 120, 45, 99, 111, 109, 109, 97, 110, 100, 45, 98, 117, 102, 102, 101, 114, 45, 115, 105, 122, 101]
}

/// Arguments of a worker process: `worker --fd N --id K --channel-buffer-size B`.
pub fn worker_args(fd: u64, id: u64, channel_buffer_size: u64) -> (r: Vec<Vec<u8>>)
    ensures
        r@.len() == 7,
        r@[0]@ == word_worker(),
        r@[1]@ == flag_fd(),
        spells(r@[2]@, fd as nat),
        r@[3]@ == flag_id(),
        spells(r@[4]@, id as nat),
        r@[5]@ == flag_channel_buffer_size(),
        spells(r@[6]@, channel_buffer_size as nat),
{
    let w: Vec<u8> = vec![119, 111, 114, 107, 101, 114];
    let f: Vec<u8> = vec![45, 45, 102, 100];
    let i: Vec<u8> = vec![45, 45, 105, 100];
    let c: Vec<u8> = vec![45, 45, 99, 104, 97, 110, 110, 101, 108, 45, 98, 117, 102, 102, 101, 114, 45, 115, 105, 122, 101];
    assert(w@ =~= word_worker());
    assert(f@ =~= flag_fd());
    assert(i@ =~= flag_id());
    assert(c@ =~= flag_channel_buffer_size());
    let mut r: Vec<Vec<u8>> = Vec::new();
    r.push(w);
    r.push(f);
    r.push(format_decimal(fd));
    r.push(i);
    r.push(format_decimal(id));
    r.push(c);
    r.push(format_decimal(channel_buffer_size));
    r
}

/// Arguments of a new master during an upgrade:
/// `upgrade --fd N --upgrade-fd U --command-buffer-size B --max-command-buffer-size M`.
pub fn upgrade_args(fd: u64, upgrade_fd: u64, command_buffer_size: u64, max_command_buffer_size: u64) -> (r: Vec<Vec<u8>>)
    ensures
        r@.len() == 9,
        r@[0]@ == word_upgrade(),
        r@[1]@ == flag_fd(),
        spells(r@[2]@, fd as nat),
        r@[3]@ == flag_upgrade_fd(),
        spells(r@[4]@, upgrade_fd as nat),
        r@[5]@ == flag_command_buffer_size(),
        spells(r@[6]@, command_buffer_size as nat),
        r@[7]@ == flag_max_command_buffer_size(),
        spells(r@[8]@, max_command_buffer_size as nat),
{
    let w: Vec<u8> = vec![117, 112, 103, 114, 97, 100, 101];
    let f: Vec<u8> = vec![45, 45, 102, 100];
    let u: Vec<u8> = vec![45, 45, 117, 112, 103, 114, 97, 100, 101, 45, 102, 100];
    let c: Vec<u8> = vec![45, 45, 99, 111, 109, 109, 97, 110, 100, 45, 98, 117, 102, 102, 101, 114, 45, 115, 105, 122, 101];
    let m: Vec<u8> = vec![45, 45, 109, 97, 120, 45, 99, 111, 109, 109, 97, 110, 100, 45, 98, 117, 102, 102, 101, 114, 45, 115, 105, 122, 101];
    assert(w@ =~= word_upgrade());
    assert(f@ =~= flag_fd());
    assert(u@ =~= flag_upgrade_fd());
    assert(c@ =~= flag_command_buffer_size());
    assert(m@ =~= flag_max_command_buffer_size());
    let mut r: Vec<Vec<u8>> = Vec::new();
    r.push(w);
    r.push(f);
    r.push(format_decimal(fd));
    r.push(u);
    r.push(format_decimal(upgrade_fd));
    r.push(c);
    r.push(format_decimal(command_buffer_size));
    r.push(m);
    r.push(format_decimal(max_command_buffer_size));
    r
}

/// ` (deleted)`, which the kernel appends to the link of an executable that was replaced.
pub open spec fn deleted_suffix() -> Seq<u8> {
    seq![32u8, 40, 100, 101, 108, 101, 116, 101, 100, 41]
}

/// The path of the running executable from its `/proc/self/exe` link, without the suffix the
/// kernel adds once the file was replaced.
pub fn executable_path_from_link(link: &[u8]) -> (r: &[u8])
    ensures
        (link@.len() >= 10 && link@.subrange(link@.len() - 10, link@.len() as int) == deleted_suffix())
            ==> r@ == link@.subrange(0, link@.len() - 10),
        !(link@.len() >= 10 && link@.subrange(link@.len() - 10, link@.len() as int) == deleted_suffix())
            ==> r@ == link@,
{
    let n = link.len();
    if n < 10 {
        return link;
    }
    let tail = vstd::slice::slice_subrange(link, n - 10, n);
    let lit: [u8; 10] = [32, 40, 100, 101, 108, 101, 116, 101, 100, 41];
    let suffix = vstd::array::array_as_slice(&lit);
    assert(suffix@ =~= deleted_suffix());
    if crate::routing::bytes_eq(tail, suffix) {
        vstd::slice::slice_subrange(link, 0, n - 10)
    } else {
        link
    }
}

} // verus!
