//! The port enumerator. An OS snapshot of socket bindings is reduced to a
//! table of display rows: TCP bindings on a nonzero port and a wildcard
//! address, joined to their owning process, deduplicated by `(port, pid)`
//! keeping the first occurrence, and sorted ascending by `(port, pid)`.

use vstd::prelude::*;

verus! {

/// The transport protocol of a socket binding.
#[derive(Clone, Copy, Debug, PartialEq, Eq, Structural)]
pub enum Protocol {
    Tcp,
    Udp,
}

/// One socket binding from an OS snapshot, as plain values: the protocol,
/// the local address as its octets (four for IPv4, sixteen for IPv6), the
/// local port, and the owning process's identifier and name.
#[derive(Clone, Debug)]
pub struct SocketBinding {
    pub protocol: Protocol,
    pub addr: Vec<u8>,
    pub port: u16,
    pub pid: u32,
    pub process_name: String,
}

/// A row for display: one listening port with process info.
#[derive(Clone, Debug)]
pub struct PortEntry {
    pub port: u16,
    pub process_name: String,
    pub pid: u32,
    pub status: String,
}

/// A local address on which a socket accepts connections from any interface:
/// every octet is zero (IPv4 `0.0.0.0` or IPv6 `::`).
pub open spec fn wildcard_addr(a: Seq<u8>) -> bool {
    forall|i: int| 0 <= i < a.len() ==> a[i] == 0
}

/// Whether a binding is kept: a TCP listener on a nonzero port bound to a
/// wildcard address.
pub open spec fn keeps(b: SocketBinding) -> bool {
    b.protocol == Protocol::Tcp && b.port != 0 && wildcard_addr(b.addr@)
}

/// The `(port, pid)` pair rows are deduplicated and ordered by.
pub open spec fn entry_key(e: PortEntry) -> (u16, u32) {
    (e.port, e.pid)
}

/// The `(port, pid)` pair of a binding.
pub open spec fn binding_key(b: SocketBinding) -> (u16, u32) {
    (b.port, b.pid)
}

/// Lexicographic order on `(port, pid)`.
pub open spec fn key_lt(x: (u16, u32), y: (u16, u32)) -> bool {
    x.0 < y.0 || (x.0 == y.0 && x.1 < y.1)
}

/// Strictly ascending by `(port, pid)`: sorted, and no two rows share a key.
pub open spec fn sorted_keys(es: Seq<PortEntry>) -> bool {
    forall|i: int, j: int|
        0 <= i < j < es.len() ==> key_lt(entry_key(#[trigger] es[i]), entry_key(#[trigger] es[j]))
}

/// Index of the first kept binding carrying key `k`, or `-1` if none does.
pub open spec fn first_kept(bs: Seq<SocketBinding>, k: (u16, u32)) -> int
    decreases bs.len(),
{
    if bs.len() == 0 {
        -1
    } else if keeps(bs[0]) && binding_key(bs[0]) == k {
        0
    } else {
        let r = first_kept(bs.drop_first(), k);
        if r < 0 {
            -1
        } else {
            r + 1
        }
    }
}

/// `first_kept` is determined by the first qualifying position.
proof fn lemma_first_kept(bs: Seq<SocketBinding>, k: (u16, u32), m: int)
    requires
        0 <= m <= bs.len(),
        forall|j: int| 0 <= j < m ==> !(keeps(#[trigger] bs[j]) && binding_key(bs[j]) == k),
        m == bs.len() || (keeps(bs[m]) && binding_key(bs[m]) == k),
    ensures
        first_kept(bs, k) == if m == bs.len() {
            -1int
        } else {
            m
        },
    decreases bs.len(),
{
    if bs.len() == 0 {
    } else if keeps(bs[0]) && binding_key(bs[0]) == k {
        assert(m == 0);
    } else {
        assert(m >= 1) by {
            if m == 0 {
                assert(keeps(bs[m]) && binding_key(bs[m]) == k);
            }
        }
        lemma_first_kept(bs.drop_first(), k, m - 1);
    }
}

/// A row faithfully reports the first kept binding with its key: same port
/// and pid, the process name of that binding, and the fixed status text.
pub open spec fn represents(bs: Seq<SocketBinding>, e: PortEntry) -> bool {
    let j = first_kept(bs, entry_key(e));
    0 <= j < bs.len() && e.process_name@ == bs[j].process_name@ && e.status@ == "Running"@
}

/// A table sorted strictly by `(port, pid)` never holds two rows with the
/// same `(port, pid)` pair.
pub proof fn lemma_sorted_keys_unique(es: Seq<PortEntry>)
    requires
        sorted_keys(es),
    ensures
        forall|i: int, j: int|
            0 <= i < es.len() && 0 <= j < es.len() && i != j ==> entry_key(#[trigger] es[i])
                != entry_key(#[trigger] es[j]),
{
    assert forall|i: int, j: int|
        0 <= i < es.len() && 0 <= j < es.len() && i != j implies entry_key(#[trigger] es[i])
        != entry_key(#[trigger] es[j]) by {
        if i < j {
            assert(key_lt(entry_key(es[i]), entry_key(es[j])));
        } else {
            assert(key_lt(entry_key(es[j]), entry_key(es[i])));
        }
    }
}

/// Some row carries key `k`.
pub open spec fn has_entry_key(es: Seq<PortEntry>, k: (u16, u32)) -> bool {
    exists|i: int| 0 <= i < es.len() && entry_key(#[trigger] es[i]) == k
}

/// `es` is the faithful reduction of the snapshot `bs`: sorted ascending by
/// `(port, pid)`, every row reporting the first kept binding with its key,
/// and every kept binding's key present.
pub open spec fn snapshot_reduces(bs: Seq<SocketBinding>, es: Seq<PortEntry>) -> bool {
    &&& sorted_keys(es)
    &&& forall|i: int| 0 <= i < es.len() ==> represents(bs, #[trigger] es[i])
    &&& forall|j: int|
        0 <= j < bs.len() && keeps(#[trigger] bs[j]) ==> has_entry_key(es, binding_key(bs[j]))
}

fn key_before(p1: u16, d1: u32, p2: u16, d2: u32) -> (r: bool)
    ensures
        r == key_lt((p1, d1), (p2, d2)),
{
    p1 < p2 || (p1 == p2 && d1 < d2)
}

fn addr_is_wildcard(a: &Vec<u8>) -> (r: bool)
    ensures
        r == wildcard_addr(a@),
{
    let mut i: usize = 0;
    while i < a.len()
        invariant
            i <= a@.len(),
            forall|k: int| 0 <= k < i ==> a@[k] == 0,
        decreases a@.len() - i,
    {
        if a[i] != 0 {
            return false;
        }
        i = i + 1;
    }
    true
}

/// Reduce a snapshot of socket bindings to the rows to display: keep TCP
/// bindings with a nonzero port on a wildcard address, deduplicate by
/// `(port, pid)` keeping the first occurrence, and sort ascending by
/// `(port, pid)`.
pub fn entries_from_snapshot(bindings: &Vec<SocketBinding>) -> (entries: Vec<PortEntry>)
    ensures
        sorted_keys(entries@),
        forall|i: int| 0 <= i < entries@.len() ==> represents(bindings@, #[trigger] entries@[i]),
        forall|j: int|
            0 <= j < bindings@.len() && keeps(#[trigger] bindings@[j]) ==> has_entry_key(
                entries@,
                binding_key(bindings@[j]),
            ),
{
    let mut entries: Vec<PortEntry> = Vec::new();
    let mut bi: usize = 0;
    while bi < bindings.len()
        invariant
            bi <= bindings@.len(),
            sorted_keys(entries@),
            forall|i: int|
                0 <= i < entries@.len() ==> represents(bindings@, #[trigger] entries@[i]),
            forall|j: int|
                0 <= j < bi && keeps(#[trigger] bindings@[j]) ==> has_entry_key(
                    entries@,
                    binding_key(bindings@[j]),
                ),
        decreases bindings@.len() - bi,
    {
        let b = &bindings[bi];
        let kept = b.port != 0 && (match b.protocol {
            Protocol::Tcp => true,
            Protocol::Udp => false,
        }) && addr_is_wildcard(&b.addr);
        assert(kept == keeps(bindings@[bi as int]));
        if kept {
            let ghost bk = binding_key(bindings@[bi as int]);
            let mut pos: usize = 0;
            while pos < entries.len() && key_before(
                entries[pos].port,
                entries[pos].pid,
                b.port,
                b.pid,
            )
                invariant
                    pos <= entries@.len(),
                    forall|i: int|
                        0 <= i < pos ==> key_lt(entry_key(#[trigger] entries@[i]), bk),
                    bk == binding_key(bindings@[bi as int]),
                    bk == (b.port, b.pid),
                    bi < bindings@.len(),
                decreases entries@.len() - pos,
            {
                assert(key_lt(entry_key(entries@[pos as int]), bk));
                pos = pos + 1;
            }
            let duplicate = pos < entries.len() && entries[pos].port == b.port
                && entries[pos].pid == b.pid;
            if duplicate {
                assert(has_entry_key(entries@, bk)) by {
                    assert(entry_key(entries@[pos as int]) == bk);
                }
            } else {
                let ghost pre = entries@;
                proof {
                    // No existing row carries the new key, so the current
                    // binding is the first kept one with it.
                    assert forall|i: int| 0 <= i < pre.len() implies entry_key(
                        #[trigger] pre[i],
                    ) != bk by {
                        if i < pos {
                            assert(key_lt(entry_key(pre[i]), bk));
                        } else if i == pos {
                        } else {
                            assert(key_lt(entry_key(pre[pos as int]), entry_key(pre[i])));
                        }
                    }
                    assert forall|j: int|
                        0 <= j < bi implies !(keeps(#[trigger] bindings@[j]) && binding_key(
                        bindings@[j],
                    ) == bk) by {
                        if keeps(bindings@[j]) && binding_key(bindings@[j]) == bk {
                            assert(has_entry_key(pre, bk));
                            let i = choose|i: int|
                                0 <= i < pre.len() && entry_key(pre[i]) == bk;
                        }
                    }
                    lemma_first_kept(bindings@, bk, bi as int);
                }
                let row = PortEntry {
                    port: b.port,
                    process_name: b.process_name.clone(),
                    pid: b.pid,
                    status: "Running".to_owned(),
                };
                entries.insert(pos, row);
                proof {
                    assert(entries@ =~= pre.insert(pos as int, row));
                    assert(entry_key(row) == bk);
                    assert(represents(bindings@, row));
                    assert(sorted_keys(entries@)) by {
                        assert forall|i: int, j: int|
                            0 <= i < j < entries@.len() implies key_lt(
                            entry_key(#[trigger] entries@[i]),
                            entry_key(#[trigger] entries@[j]),
                        ) by {
                            // Rows left of the insertion point are below the
                            // new key; the row at the point, if any, differs
                            // from it and is not below it, so it is above.
                            if pos < pre.len() {
                                assert(!key_lt(entry_key(pre[pos as int]), bk));
                                assert(entry_key(pre[pos as int]) != bk);
                                assert(key_lt(bk, entry_key(pre[pos as int])));
                            }
                            assert forall|m: int| 0 <= m < pre.len() && m >= pos implies key_lt(
                                bk,
                                entry_key(#[trigger] pre[m]),
                            ) by {
                                if m > pos {
                                    assert(key_lt(entry_key(pre[pos as int]), entry_key(pre[m])));
                                }
                            }
                        }
                    }
                    assert forall|i: int| 0 <= i < entries@.len() implies represents(
                        bindings@,
                        #[trigger] entries@[i],
                    ) by {
                        if i < pos {
                            assert(entries@[i] == pre[i]);
                        } else if i > pos {
                            assert(entries@[i] == pre[i - 1]);
                        }
                    }
                    assert forall|j: int|
                        0 <= j < bi + 1 && keeps(#[trigger] bindings@[j]) implies has_entry_key(
                        entries@,
                        binding_key(bindings@[j]),
                    ) by {
                        if j == bi {
                            assert(entry_key(entries@[pos as int]) == bk);
                        } else {
                            let i = choose|i: int|
                                0 <= i < pre.len() && entry_key(pre[i]) == binding_key(
                                    bindings@[j],
                                );
                            if i < pos {
                                assert(entry_key(entries@[i]) == binding_key(bindings@[j]));
                            } else {
                                assert(entry_key(entries@[i + 1]) == binding_key(bindings@[j]));
                            }
                        }
                    }
                }
            }
        }
        bi = bi + 1;
    }
    entries
}

/// Relies on listeners::get_all: one snapshot of the OS socket table, each
/// listener handed over as plain values (protocol, address octets, port,
/// owning pid and process name); a query failure becomes its message.
#[verifier::external_body]
fn fetch_bindings() -> Result<Vec<SocketBinding>, String> {
    let ls = listeners::get_all().map_err(|e| e.to_string())?;
    Ok(ls.into_iter().map(|l| SocketBinding {
        protocol: match l.protocol {
            listeners::Protocol::TCP => Protocol::Tcp,
            listeners::Protocol::UDP => Protocol::Udp,
        },
        addr: match l.socket.ip() {
            core::net::IpAddr::V4(a) => a.octets().to_vec(),
            core::net::IpAddr::V6(a) => a.octets().to_vec(),
        },
        port: l.socket.port(),
        pid: l.process.pid,
        process_name: l.process.name,
    }).collect())
}

/// List all listening ports with process info: whatever snapshot the OS
/// hands back, the rows are its faithful reduction, so they are sorted
/// ascending by `(port, pid)` and no key appears twice. A failed OS query
/// is reported whole; no partial table is returned.
pub fn list_ports() -> (r: Result<Vec<PortEntry>, String>)
    ensures
        r matches Ok(es) ==> sorted_keys(es@) && (exists|bs: Seq<SocketBinding>|
            snapshot_reduces(bs, es@)),
{
    match fetch_bindings() {
        Ok(bs) => {
            let es = entries_from_snapshot(&bs);
            proof {
                assert(snapshot_reduces(bs@, es@));
            }
            Ok(es)
        },
        Err(e) => Err(e),
    }
}

} // verus!
