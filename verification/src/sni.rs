//! The outbound packet classifier: finds the server name (SNI) that a TLS
//! ClientHello announces and drops the packet when that name is blocked.
//!
//! A packet is the bytes from its first header on; it starts with an IPv4 or
//! IPv6 header (tunnel devices) or with an Ethernet header.
use vstd::prelude::*;
use vstd::string::StringSliceAdditionalSpecFns;

verus! {

/// The verdict that lets a packet pass.
pub const TC_ACT_OK: i32 = 0;

/// The verdict that drops a packet.
pub const TC_ACT_SHOT: i32 = 2;

/// The longest name a blocklist key holds.
pub const MAX_DNS_NAME_LEN: usize = 256;

/// The byte at `off`, if the packet holds it.
pub open spec fn u8_at(p: Seq<u8>, off: int) -> Option<int> {
    if 0 <= off < p.len() {
        Some(p[off] as int)
    } else {
        None
    }
}

/// The big-endian 16-bit value at `off`, if the packet holds both bytes.
pub open spec fn u16_at(p: Seq<u8>, off: int) -> Option<int> {
    if 0 <= off && off + 1 < p.len() {
        Some(p[off] as int * 256 + p[off + 1] as int)
    } else {
        None
    }
}

/// The offset of the TCP header, when the packet is IPv4 or IPv6 (bare or
/// behind an Ethernet header) and carries TCP.
pub open spec fn tcp_offset(p: Seq<u8>) -> Option<int> {
    match u8_at(p, 0) {
        None => None,
        Some(b0) => {
            let version = b0 / 16;
            // (offset of the transport header, protocol), or None
            let l3: Option<(int, int)> = if version == 4 {
                let ihl = (b0 % 16) * 4;
                match u8_at(p, 9) {
                    None => None,
                    Some(proto) => if ihl < 20 || ihl > 60 { None } else { Some((ihl, proto)) },
                }
            } else if version == 6 {
                match u8_at(p, 6) {
                    None => None,
                    Some(proto) => Some((40, proto)),
                }
            } else {
                match u16_at(p, 12) {
                    None => None,
                    Some(ether_type) => if ether_type == 0x0800 {
                        match (u8_at(p, 14), u8_at(p, 23)) {
                            (Some(ver_ihl), Some(proto)) => {
                                let ihl = (ver_ihl % 16) * 4;
                                if ihl < 20 || ihl > 60 { None } else { Some((14 + ihl, proto)) }
                            },
                            _ => None,
                        }
                    } else if ether_type == 0x86DD {
                        match u8_at(p, 20) {
                            None => None,
                            Some(proto) => Some((54, proto)),
                        }
                    } else {
                        None
                    },
                }
            };
            match l3 {
                Some((off, proto)) => if proto == 6 { Some(off) } else { None },
                None => None,
            }
        },
    }
}

/// The HTTPS port, the only destination whose traffic is inspected.
pub const HTTPS_PORT: u16 = 443;

/// The offset of the session id length of a TLS ClientHello that starts
/// the payload of a TCP segment bound for port 443.
pub open spec fn hello_offset(p: Seq<u8>) -> Option<int> {
    match tcp_offset(p) {
        None => None,
        Some(t) => if u16_at(p, t + 2) != Some(HTTPS_PORT as int) { None } else { match u8_at(p, t + 12) {
            None => None,
            Some(doff_byte) => {
                let doff = (doff_byte / 16) * 4;
                if doff < 20 || doff > 60 {
                    None
                } else {
                    let rec = t + doff;
                    if u8_at(p, rec) == Some(22int) && u8_at(p, rec + 5) == Some(1int) {
                        Some(rec + 5 + 4 + 34)
                    } else {
                        None
                    }
                }
            },
        } },
    }
}

/// The offset of the first extension and the length of the extensions.
pub open spec fn extensions(p: Seq<u8>) -> Option<(int, int)> {
    match hello_offset(p) {
        None => None,
        Some(h) => match u8_at(p, h) {
            None => None,
            Some(sid_len) => if sid_len > 32 {
                None
            } else {
                let c = h + 1 + sid_len;
                match u16_at(p, c) {
                    None => None,
                    Some(cs_len) => if cs_len > 512 {
                        None
                    } else {
                        let m = c + 2 + cs_len;
                        match u8_at(p, m) {
                            None => None,
                            Some(cp_len) => if cp_len > 32 {
                                None
                            } else {
                                let e = m + 1 + cp_len;
                                match u16_at(p, e) {
                                    None => None,
                                    Some(exts_len) => Some((e + 2, exts_len)),
                                }
                            },
                        }
                    },
                }
            },
        },
    }
}

/// The host name in a server name extension whose body starts at `body`:
/// the first entry, when it is of host name type and 1 to 127 bytes long.
pub open spec fn name_in_extension(p: Seq<u8>, body: int) -> Option<Seq<u8>> {
    let s = body + 2;
    if u8_at(p, s) == Some(0int) {
        match u16_at(p, s + 1) {
            Some(len) => if 0 < len < 128 && s + 3 + len <= p.len() {
                Some(p.subrange(s + 3, s + 3 + len))
            } else {
                None
            },
            None => None,
        }
    } else {
        None
    }
}

/// The host name found by walking the extensions from `cur` (relative to
/// `base`), at most `64 - i` more of them, while they start within the first
/// 1024 bytes; the walk stops at the first server name extension.
pub open spec fn walk_extensions(p: Seq<u8>, base: int, exts_len: int, cur: int, i: nat) -> Option<Seq<u8>>
    decreases 64 - i,
{
    if i >= 64 || cur + 4 > exts_len {
        None
    } else {
        match (u16_at(p, base + cur), u16_at(p, base + cur + 2)) {
            (Some(etype), Some(elen)) => if etype == 0 {
                name_in_extension(p, base + cur + 4)
            } else {
                let next = cur + 4 + elen;
                if next > 1024 {
                    None
                } else {
                    walk_extensions(p, base, exts_len, next, i + 1)
                }
            },
            _ => None,
        }
    }
}

/// The server name that the packet's TLS ClientHello announces.
pub open spec fn server_name(p: Seq<u8>) -> Option<Seq<u8>> {
    match extensions(p) {
        None => None,
        Some((base, exts_len)) => walk_extensions(p, base, exts_len, 0, 0),
    }
}

/// Whether the packet is dropped: it announces a server name that the
/// blocklist blocks.
pub open spec fn packet_blocked(p: Seq<u8>, blocked: Set<Seq<u8>>) -> bool {
    match server_name(p) {
        Some(n) => exists|s: Seq<u8>| lookup_names(n).contains(s) && blocked.contains(key_of(s)),
        None => false,
    }
}

/// The blocklist key of a name: its first 256 bytes, padded with zero bytes
/// to 256.
pub open spec fn key_of(name: Seq<u8>) -> Seq<u8> {
    Seq::new(256, |i: int| if i < name.len() { name[i] } else { 0u8 })
}

/// The names a host name is blocked under: itself, and each suffix of it that
/// starts with a '.' (a label boundary).
pub open spec fn lookup_names(name: Seq<u8>) -> Set<Seq<u8>> {
    Set::new(|s: Seq<u8>| s == name || exists|i: int| 0 <= i < name.len() && name[i] == 0x2e
        && s == name.skip(i))
}

/// A blocklist key: a name padded with zero bytes to 256.
pub struct NameBuf {
    pub name: Vec<u8>,
}

/// A blocklist entry: a name buffer and the name's length.
pub struct BlockEntry {
    pub name: Vec<u8>,
    pub len: usize,
}

/// Whether `x` is one of the keys.
pub open spec fn key_in(keys: Seq<Vec<u8>>, x: Seq<u8>) -> bool {
    exists|j: int| 0 <= j < keys.len() && keys[j]@ == x
}

/// The blocklist: a set of keys.
pub struct Blocklist {
    keys: Vec<Vec<u8>>,
}

impl View for Blocklist {
    type V = Set<Seq<u8>>;

    closed spec fn view(&self) -> Set<Seq<u8>> {
        Set::new(|k: Seq<u8>| exists|i: int| 0 <= i < self.keys@.len() && self.keys@[i]@ == k)
    }
}

/// The key under which a domain is stored: its UTF-8 bytes, cut at 256 and
/// padded with zero bytes.
pub fn domain_key(domain: &str) -> (k: NameBuf)
    ensures
        k.name@ == key_of(domain.spec_bytes()),
{
    let bytes = domain.as_bytes();
    name_key(bytes)
}

/// The key of a name given by its bytes.
pub fn name_key(bytes: &[u8]) -> (k: NameBuf)
    ensures
        k.name@ == key_of(bytes@),
{
    let mut name: Vec<u8> = Vec::new();
    let mut i: usize = 0;
    while i < 256
        invariant
            i <= 256,
            name@.len() == i,
            forall|j: int| 0 <= j < i ==> name@[j] == (if j < bytes@.len() { bytes@[j] } else { 0u8 }),
        decreases 256 - i,
    {
        if i < bytes.len() {
            name.push(bytes[i]);
        } else {
            name.push(0u8);
        }
        i = i + 1;
    }
    assert(name@ =~= key_of(bytes@));
    NameBuf { name }
}

fn bytes_eq(a: &[u8], b: &[u8]) -> (r: bool)
    ensures
        r == (a@ == b@),
{
    if a.len() != b.len() {
        return false;
    }
    let mut i: usize = 0;
    while i < a.len()
        invariant
            a@.len() == b@.len(),
            i <= a@.len(),
            forall|k: int| 0 <= k < i ==> a@[k] == b@[k],
        decreases a.len() - i,
    {
        if a[i] != b[i] {
            return false;
        }
        i = i + 1;
    }
    assert(a@ =~= b@);
    true
}

impl Blocklist {
    /// The empty blocklist.
    pub fn new() -> (b: Blocklist)
        ensures
            b@ == Set::<Seq<u8>>::empty(),
    {
        let b = Blocklist { keys: Vec::new() };
        assert(b@ =~= Set::<Seq<u8>>::empty());
        b
    }

    /// Whether the key is in the blocklist.
    pub fn contains_key(&self, key: &NameBuf) -> (r: bool)
        ensures
            r == self@.contains(key.name@),
    {
        let mut i: usize = 0;
        while i < self.keys.len()
            invariant
                i <= self.keys@.len(),
                forall|j: int| 0 <= j < i ==> self.keys@[j]@ != key.name@,
            decreases self.keys.len() - i,
        {
            if bytes_eq(self.keys[i].as_slice(), key.name.as_slice()) {
                return true;
            }
            i = i + 1;
        }
        false
    }

    /// Blocks a domain.
    pub fn add_domain(&mut self, domain: &str)
        ensures
            final(self)@ == old(self)@.insert(key_of(domain.spec_bytes())),
    {
        let k = domain_key(domain);
        if !self.contains_key(&k) {
            self.keys.push(k.name);
        }
        assert(self@ =~= old(self)@.insert(key_of(domain.spec_bytes()))) by {
            assert forall|x: Seq<u8>| self@.contains(x) <==> old(self)@.insert(key_of(domain.spec_bytes())).contains(x) by {
                if old(self)@.contains(x) {
                    let j = choose|j: int| 0 <= j < old(self).keys@.len() && old(self).keys@[j]@ == x;
                    assert(self.keys@[j] == old(self).keys@[j]);
                }
                if x == key_of(domain.spec_bytes()) && !old(self)@.contains(x) {
                    assert(self.keys@[self.keys@.len() - 1]@ == x);
                }
            }
        }
    }

    /// Unblocks a domain.
    pub fn remove_domain(&mut self, domain: &str)
        ensures
            final(self)@ == old(self)@.remove(key_of(domain.spec_bytes())),
    {
        let k = domain_key(domain);
        let ghost target = k.name@;
        let mut kept: Vec<Vec<u8>> = Vec::new();
        let mut i: usize = 0;
        while i < self.keys.len()
            invariant
                i <= self.keys@.len(),
                self.keys == old(self).keys,
                target == k.name@,
                forall|x: Seq<u8>| #[trigger] key_in(kept@, x) <==> (x != target && key_in(
                    self.keys@.take(i as int),
                    x,
                )),
            decreases self.keys.len() - i,
        {
            let ghost before = kept@;
            let same = bytes_eq(self.keys[i].as_slice(), k.name.as_slice());
            assert(same == (self.keys@[i as int]@ == target));
            if !same {
                let c = self.keys[i].clone();
                assert(c@ =~= self.keys@[i as int]@);
                kept.push(c);
            }
            proof {
                if same {
                    assert(kept@ == before);
                } else {
                    assert(kept@.len() == before.len() + 1);
                    assert(kept@[kept@.len() - 1]@ == self.keys@[i as int]@);
                    assert forall|j: int| 0 <= j < before.len() implies kept@[j] == before[j] by {}
                }
                let pre = self.keys@.take(i as int);
                let post = self.keys@.take(i + 1);
                assert forall|x: Seq<u8>| #[trigger] key_in(kept@, x) <==> (x != target && key_in(post, x)) by {
                    if key_in(kept@, x) {
                        let j = choose|j: int| 0 <= j < kept@.len() && kept@[j]@ == x;
                        if j < before.len() {
                            assert(before[j] == kept@[j]);
                            assert(key_in(before, x));
                            let m = choose|m: int| 0 <= m < pre.len() && pre[m]@ == x;
                            assert(post[m] == pre[m]);
                        } else {
                            assert(post[i as int] == self.keys@[i as int]);
                        }
                    }
                    if x != target && key_in(post, x) {
                        let j = choose|j: int| 0 <= j < post.len() && post[j]@ == x;
                        if j < i {
                            assert(pre[j] == post[j]);
                            assert(key_in(pre, x));
                            assert(key_in(before, x));
                            let m = choose|m: int| 0 <= m < before.len() && before[m]@ == x;
                            assert(kept@[m] == before[m]);
                        } else {
                            assert(j == i);
                            assert(post[j] == self.keys@[i as int]);
                            assert(!same);
                            assert(kept@[kept@.len() - 1]@ == x);
                        }
                    }
                }
            }
            i = i + 1;
        }
        assert(self.keys@.take(i as int) =~= self.keys@);
        self.keys = kept;
        assert forall|x: Seq<u8>| self@.contains(x) <==> key_in(self.keys@, x) by {}
        assert forall|x: Seq<u8>| old(self)@.contains(x) <==> key_in(old(self).keys@, x) by {}
        assert(self@ =~= old(self)@.remove(target));
    }

    /// Whether a host name is blocked: its own key, or that of one of its
    /// suffixes that start with '.', is in the blocklist.
    pub fn blocks_name(&self, name: &[u8]) -> (r: bool)
        ensures
            r == exists|s: Seq<u8>| lookup_names(name@).contains(s) && self@.contains(key_of(s)),
    {
        let k = name_key(name);
        if self.contains_key(&k) {
            assert(lookup_names(name@).contains(name@));
            return true;
        }
        let mut i: usize = 0;
        while i < name.len()
            invariant
                i <= name@.len(),
                !self@.contains(key_of(name@)),
                forall|j: int| 0 <= j < i && name@[j] == 0x2e ==> !self@.contains(key_of(#[trigger] name@.skip(j))),
            decreases name.len() - i,
        {
            if name[i] == 0x2e {
                let suffix = slice_skip(name, i);
                let ks = name_key(suffix.as_slice());
                if self.contains_key(&ks) {
                    assert(lookup_names(name@).contains(name@.skip(i as int)));
                    return true;
                }
            }
            i = i + 1;
        }
        proof {
            assert forall|s: Seq<u8>| lookup_names(name@).contains(s) implies !self@.contains(key_of(s)) by {
                if s != name@ {
                    let j = choose|j: int| 0 <= j < name@.len() && name@[j] == 0x2e && s == name@.skip(j);
                    assert(!self@.contains(key_of(name@.skip(j))));
                }
            }
        }
        false
    }
}

/// The bytes of `b` from `from` on.
fn slice_skip(b: &[u8], from: usize) -> (v: Vec<u8>)
    requires
        from <= b@.len(),
    ensures
        v@ == b@.skip(from as int),
{
    let mut v: Vec<u8> = Vec::new();
    let mut i = from;
    while i < b.len()
        invariant
            from <= i <= b@.len(),
            v@ == b@.subrange(from as int, i as int),
        decreases b.len() - i,
    {
        v.push(b[i]);
        i = i + 1;
    }
    v
}

/// Reads one byte (`bpf_skb_load_bytes` of one byte).
pub fn load_u8(p: &[u8], off: usize) -> (r: Option<u8>)
    ensures
        match r {
            Some(v) => u8_at(p@, off as int) == Some(v as int),
            None => u8_at(p@, off as int) is None,
        },
{
    if off < p.len() {
        Some(p[off])
    } else {
        None
    }
}

/// Reads a big-endian 16-bit value.
pub fn load_u16(p: &[u8], off: usize) -> (r: Option<u16>)
    ensures
        match r {
            Some(v) => u16_at(p@, off as int) == Some(v as int),
            None => u16_at(p@, off as int) is None,
        },
{
    if off < p.len() && p.len() - off >= 2 {
        Some((p[off] as u16) * 256 + (p[off + 1] as u16))
    } else {
        None
    }
}

/// `r` holds the offset that `s` gives, or nothing where `s` gives none.
pub open spec fn same_offset(r: Option<usize>, s: Option<int>) -> bool {
    match r {
        Some(v) => s == Some(v as int),
        None => s is None,
    }
}

/// The offset of the TCP header (see `tcp_offset`).
fn tcp_offset_of(p: &[u8]) -> (r: Option<usize>)
    ensures
        same_offset(r, tcp_offset(p@)),
        r matches Some(v) ==> v <= 74,
{
    let b0 = match load_u8(p, 0) {
        Some(b) => b,
        None => return None,
    };
    let version = b0 / 16;
    let off: usize;
    let proto: u8;
    if version == 4 {
        proto = match load_u8(p, 9) {
            Some(v) => v,
            None => return None,
        };
        let ihl = ((b0 % 16) as usize) * 4;
        if ihl < 20 || ihl > 60 {
            return None;
        }
        off = ihl;
    } else if version == 6 {
        proto = match load_u8(p, 6) {
            Some(v) => v,
            None => return None,
        };
        off = 40;
    } else {
        let ether_type = match load_u16(p, 12) {
            Some(v) => v,
            None => return None,
        };
        if ether_type == 0x0800 {
            let ver_ihl = match load_u8(p, 14) {
                Some(v) => v,
                None => return None,
            };
            proto = match load_u8(p, 23) {
                Some(v) => v,
                None => return None,
            };
            let ihl = ((ver_ihl % 16) as usize) * 4;
            if ihl < 20 || ihl > 60 {
                return None;
            }
            off = 14 + ihl;
        } else if ether_type == 0x86DD {
            proto = match load_u8(p, 20) {
                Some(v) => v,
                None => return None,
            };
            off = 54;
        } else {
            return None;
        }
    }
    if proto != 6 {
        return None;
    }
    Some(off)
}

/// The offset of the ClientHello's session id length (see `hello_offset`).
fn hello_offset_of(p: &[u8]) -> (r: Option<usize>)
    ensures
        same_offset(r, hello_offset(p@)),
        r matches Some(v) ==> v <= 177,
{
    let t = match tcp_offset_of(p) {
        Some(t) => t,
        None => return None,
    };
    match load_u16(p, t + 2) {
        Some(port) => {
            if port != HTTPS_PORT {
                return None;
            }
        },
        None => return None,
    }
    let doff_byte = match load_u8(p, t + 12) {
        Some(v) => v,
        None => return None,
    };
    let doff = ((doff_byte / 16) as usize) * 4;
    if doff < 20 || doff > 60 {
        return None;
    }
    let rec = t + doff;
    match load_u8(p, rec) {
        Some(content_type) => {
            if content_type != 22 {
                return None;
            }
        },
        None => return None,
    }
    match load_u8(p, rec + 5) {
        Some(hs_type) => {
            if hs_type != 1 {
                return None;
            }
        },
        None => return None,
    }
    Some(rec + 5 + 4 + 34)
}

/// The offset of the first extension and the extensions' length (see
/// `extensions`).
fn extensions_of(p: &[u8]) -> (r: Option<(usize, usize)>)
    ensures
        match r {
            Some((base, len)) => extensions(p@) == Some((base as int, len as int)) && base <= 759
                && len <= 0xffff,
            None => extensions(p@) is None,
        },
{
    let h = match hello_offset_of(p) {
        Some(h) => h,
        None => return None,
    };
    let sid_len = match load_u8(p, h) {
        Some(v) => v as usize,
        None => return None,
    };
    if sid_len > 32 {
        return None;
    }
    let c = h + 1 + sid_len;
    let cs_len = match load_u16(p, c) {
        Some(v) => v as usize,
        None => return None,
    };
    if cs_len > 512 {
        return None;
    }
    let m = c + 2 + cs_len;
    let cp_len = match load_u8(p, m) {
        Some(v) => v as usize,
        None => return None,
    };
    if cp_len > 32 {
        return None;
    }
    let e = m + 1 + cp_len;
    let exts_len = match load_u16(p, e) {
        Some(v) => v as usize,
        None => return None,
    };
    Some((e + 2, exts_len))
}

/// The host name of a server name extension whose body starts at `body` (see
/// `name_in_extension`).
fn name_at(p: &[u8], body: usize) -> (r: Option<Vec<u8>>)
    requires
        body <= 4096,
    ensures
        match r {
            Some(n) => name_in_extension(p@, body as int) == Some(n@) && n@.len() < 128,
            None => name_in_extension(p@, body as int) is None,
        },
{
    let s = body + 2;
    let name_type = match load_u8(p, s) {
        Some(v) => v,
        None => return None,
    };
    if name_type != 0 {
        return None;
    }
    let len = match load_u16(p, s + 1) {
        Some(v) => v as usize,
        None => return None,
    };
    if len == 0 || len >= 128 || p.len() < s + 3 || p.len() - (s + 3) < len {
        return None;
    }
    let mut name: Vec<u8> = Vec::new();
    let mut i: usize = 0;
    while i < len
        invariant
            i <= len,
            s <= 4098,
            s + 3 + len <= p.len(),
            name@ == p@.subrange(s + 3, s + 3 + i),
        decreases len - i,
    {
        name.push(p[s + 3 + i]);
        i = i + 1;
    }
    Some(name)
}

/// The server name that a packet's TLS ClientHello announces.
pub fn server_name_of(p: &[u8]) -> (r: Option<Vec<u8>>)
    ensures
        match r {
            Some(n) => server_name(p@) == Some(n@) && n@.len() < 128,
            None => server_name(p@) is None,
        },
{
    let (base, exts_len) = match extensions_of(p) {
        Some(e) => e,
        None => return None,
    };
    let mut cur: usize = 0;
    let mut i: usize = 0;
    while i < 64
        invariant
            i <= 64,
            cur <= 1024,
            base <= 759,
            exts_len <= 0xffff,
            walk_extensions(p@, base as int, exts_len as int, 0, 0) == walk_extensions(
                p@,
                base as int,
                exts_len as int,
                cur as int,
                i as nat,
            ),
            extensions(p@) == Some((base as int, exts_len as int)),
        decreases 64 - i,
    {
        if cur + 4 > exts_len {
            return None;
        }
        let etype = match load_u16(p, base + cur) {
            Some(v) => v,
            None => return None,
        };
        let elen = match load_u16(p, base + cur + 2) {
            Some(v) => v as usize,
            None => return None,
        };
        if etype == 0 {
            return name_at(p, base + cur + 4);
        }
        let next = cur + 4 + elen;
        if next > 1024 {
            return None;
        }
        cur = next;
        i = i + 1;
    }
    None
}

/// The classifier's verdict on an outbound packet: `TC_ACT_SHOT` when the
/// server name its ClientHello announces is blocked, `TC_ACT_OK` otherwise
/// (and whenever the packet cannot be read that far).
pub fn classify(p: &[u8], blocklist: &Blocklist) -> (verdict: i32)
    ensures
        verdict == (if packet_blocked(p@, blocklist@) { TC_ACT_SHOT } else { TC_ACT_OK }),
{
    match server_name_of(p) {
        Some(name) => {
            let slice = name.as_slice();
            assert(slice@ == name@);
            let found = blocklist.blocks_name(slice);
            proof {
                assert(server_name(p@) == Some(name@));
                if found {
                    let w = choose|w: Seq<u8>| lookup_names(name@).contains(w) && blocklist@.contains(key_of(w));
                    assert(lookup_names(name@).contains(w) && blocklist@.contains(key_of(w)));
                    assert(exists|s: Seq<u8>| lookup_names(name@).contains(s) && blocklist@.contains(key_of(s)));
                    let n = server_name(p@)->0;
                    assert(n == name@);
                    assert(exists|s: Seq<u8>| lookup_names(n).contains(s) && blocklist@.contains(key_of(s)));
                    assert(packet_blocked(p@, blocklist@));
                } else if packet_blocked(p@, blocklist@) {
                    let w = choose|w: Seq<u8>| lookup_names(name@).contains(w) && blocklist@.contains(key_of(w));
                    assert(lookup_names(name@).contains(w) && blocklist@.contains(key_of(w)));
                }
            }
            if found {
                TC_ACT_SHOT
            } else {
                TC_ACT_OK
            }
        },
        None => {
            assert(!packet_blocked(p@, blocklist@));
            TC_ACT_OK
        },
    }
}

/// Blocking a domain drops every ClientHello that names it.
pub proof fn lemma_blocking_drops_the_name(p: Seq<u8>, blocked: Set<Seq<u8>>, d: Seq<u8>)
    requires
        server_name(p) == Some(d),
    ensures
        packet_blocked(p, blocked.insert(key_of(d))),
{
    let b = blocked.insert(key_of(d));
    let n = server_name(p)->0;
    assert(n == d);
    assert(lookup_names(n).contains(d) && b.contains(key_of(d)));
    assert(exists|s: Seq<u8>| lookup_names(n).contains(s) && b.contains(key_of(s)));
}

/// Blocking a suffix key (one that starts with '.') drops every ClientHello
/// that names a host ending with it.
pub proof fn lemma_suffix_key_drops_subdomains(
    p: Seq<u8>,
    blocked: Set<Seq<u8>>,
    host: Seq<u8>,
    suffix: Seq<u8>,
)
    requires
        server_name(p) == Some(host + suffix),
        suffix.len() > 0,
        suffix[0] == 0x2e,
    ensures
        packet_blocked(p, blocked.insert(key_of(suffix))),
{
    let n = server_name(p)->0;
    assert(n == host + suffix);
    let i = host.len() as int;
    assert(n[i] == suffix[0]);
    assert(n.skip(i) =~= suffix);
    let b = blocked.insert(key_of(suffix));
    assert(lookup_names(n).contains(suffix) && b.contains(key_of(suffix)));
    assert(exists|s: Seq<u8>| lookup_names(n).contains(s) && b.contains(key_of(s)));
}

/// Unblocking never drops a packet that was let through, and blocking never
/// lets through a packet that was dropped.
pub proof fn lemma_blocking_is_monotone(p: Seq<u8>, blocked: Set<Seq<u8>>, k: Seq<u8>)
    ensures
        packet_blocked(p, blocked.remove(k)) ==> packet_blocked(p, blocked),
        packet_blocked(p, blocked) ==> packet_blocked(p, blocked.insert(k)),
{
    if let Some(n) = server_name(p) {
        if packet_blocked(p, blocked.remove(k)) {
            let w = choose|w: Seq<u8>| lookup_names(n).contains(w) && blocked.remove(k).contains(key_of(w));
            assert(lookup_names(n).contains(w) && blocked.contains(key_of(w)));
        }
        if packet_blocked(p, blocked) {
            let w = choose|w: Seq<u8>| lookup_names(n).contains(w) && blocked.contains(key_of(w));
            assert(lookup_names(n).contains(w) && blocked.insert(k).contains(key_of(w)));
        }
    }
}

/// A packet that announces no server name (not TCP to port 443, not a
/// ClientHello, or cut short) is never dropped.
pub proof fn lemma_nameless_packets_pass(p: Seq<u8>, blocked: Set<Seq<u8>>)
    requires
        server_name(p) is None,
    ensures
        !packet_blocked(p, blocked),
{
}

/// No byte of `s` is zero.
pub open spec fn no_zero_byte(s: Seq<u8>) -> bool {
    forall|i: int| 0 <= i < s.len() ==> s[i] != 0u8
}

/// Names of at most 256 bytes with no zero byte have distinct keys.
pub proof fn lemma_key_of_injective(x: Seq<u8>, y: Seq<u8>)
    requires
        x.len() <= MAX_DNS_NAME_LEN,
        y.len() <= MAX_DNS_NAME_LEN,
        no_zero_byte(x),
        no_zero_byte(y),
        key_of(x) == key_of(y),
    ensures
        x == y,
{
    if x.len() < y.len() {
        let k = x.len() as int;
        assert(key_of(x)[k] == 0u8);
        assert(key_of(y)[k] == y[k]);
        assert(y[k] != 0u8);
    } else if y.len() < x.len() {
        let k = y.len() as int;
        assert(key_of(y)[k] == 0u8);
        assert(key_of(x)[k] == x[k]);
        assert(x[k] != 0u8);
    }
    assert(x.len() == y.len());
    assert forall|i: int| 0 <= i < x.len() implies x[i] == y[i] by {
        assert(key_of(x)[i] == x[i]);
        assert(key_of(y)[i] == y[i]);
    }
    assert(x =~= y);
}

/// A name found by walking the extensions is 1 to 127 bytes long.
proof fn lemma_walk_name_short(p: Seq<u8>, base: int, exts_len: int, cur: int, i: nat)
    ensures
        walk_extensions(p, base, exts_len, cur, i) matches Some(n) ==> 0 < n.len() < 128,
    decreases 64 - i,
{
    if i < 64 && cur + 4 <= exts_len {
        if let (Some(etype), Some(elen)) = (u16_at(p, base + cur), u16_at(p, base + cur + 2)) {
            if etype != 0 {
                let next = cur + 4 + elen;
                if next <= 1024 {
                    lemma_walk_name_short(p, base, exts_len, next, i + 1);
                }
            }
        }
    }
}

/// The server name a packet announces is 1 to 127 bytes long.
pub proof fn lemma_server_name_short(p: Seq<u8>)
    ensures
        server_name(p) matches Some(n) ==> 0 < n.len() < 128,
{
    if let Some((base, exts_len)) = extensions(p) {
        lemma_walk_name_short(p, base, exts_len, 0, 0);
    }
}

/// A key that does not start with '.' matches only a name whose own key it
/// is: no suffix of a name starts anywhere but at a '.', so a lookup under
/// such a key never reaches a parent domain.
pub proof fn lemma_exact_key_matches_only_itself(name: Seq<u8>, d: Seq<u8>)
    requires
        d.len() > 0,
        d[0] != 0x2e,
    ensures
        (exists|s: Seq<u8>| lookup_names(name).contains(s) && #[trigger] key_of(s) == key_of(d)) <==> key_of(
            name,
        ) == key_of(d),
{
    if key_of(name) == key_of(d) {
        assert(lookup_names(name).contains(name));
    }
    if exists|s: Seq<u8>| lookup_names(name).contains(s) && #[trigger] key_of(s) == key_of(d) {
        let s = choose|s: Seq<u8>| lookup_names(name).contains(s) && #[trigger] key_of(s) == key_of(d);
        if s != name {
            let i = choose|i: int| 0 <= i < name.len() && name[i] == 0x2e && s == name.skip(i);
            assert(key_of(s)[0] == s[0]);
            assert(key_of(d)[0] == d[0]);
        }
    }
}

/// A blocklist holding one key that does not start with '.' drops exactly
/// the packets whose announced name has that key: a subdomain of the name
/// passes.
pub proof fn lemma_exact_key_blocks_only_its_name(p: Seq<u8>, d: Seq<u8>)
    requires
        d.len() > 0,
        d[0] != 0x2e,
    ensures
        packet_blocked(p, set![key_of(d)]) <==> (server_name(p) matches Some(n) && key_of(n) == key_of(d)),
{
    if let Some(n) = server_name(p) {
        lemma_exact_key_matches_only_itself(n, d);
        let b = set![key_of(d)];
        assert(forall|s: Seq<u8>| b.contains(key_of(s)) <==> #[trigger] key_of(s) == key_of(d));
    }
}

/// For names without zero bytes: a blocklist holding the key of a domain
/// that does not start with '.' drops exactly the packets that announce that
/// domain.
pub proof fn lemma_exact_domain_blocks_only_itself(p: Seq<u8>, d: Seq<u8>)
    requires
        d.len() > 0,
        d[0] != 0x2e,
        d.len() <= MAX_DNS_NAME_LEN,
        no_zero_byte(d),
        server_name(p) matches Some(n) ==> no_zero_byte(n),
    ensures
        packet_blocked(p, set![key_of(d)]) <==> server_name(p) == Some(d),
{
    lemma_exact_key_blocks_only_its_name(p, d);
    lemma_server_name_short(p);
    if let Some(n) = server_name(p) {
        if key_of(n) == key_of(d) {
            lemma_key_of_injective(n, d);
        }
    }
}

/// For names without zero bytes: a blocklist holding the key of a suffix
/// that starts with '.' drops exactly the packets that announce a name
/// ending with that suffix.
pub proof fn lemma_suffix_key_blocks_exactly_its_subdomains(p: Seq<u8>, sfx: Seq<u8>)
    requires
        sfx.len() > 0,
        sfx[0] == 0x2e,
        sfx.len() <= MAX_DNS_NAME_LEN,
        no_zero_byte(sfx),
        server_name(p) matches Some(n) ==> no_zero_byte(n),
    ensures
        packet_blocked(p, set![key_of(sfx)]) <==> (server_name(p) matches Some(n) && exists|i: int|
            0 <= i <= n.len() && #[trigger] n.skip(i) == sfx),
{
    lemma_server_name_short(p);
    if let Some(n) = server_name(p) {
        let b = set![key_of(sfx)];
        if exists|i: int| 0 <= i <= n.len() && #[trigger] n.skip(i) == sfx {
            let i = choose|i: int| 0 <= i <= n.len() && #[trigger] n.skip(i) == sfx;
            assert(n.skip(i)[0] == n[i]);
            assert(lookup_names(n).contains(sfx));
            assert(lookup_names(n).contains(sfx) && b.contains(key_of(sfx)));
        }
        if packet_blocked(p, b) {
            let w = choose|w: Seq<u8>| lookup_names(n).contains(w) && b.contains(key_of(w));
            assert(key_of(w) == key_of(sfx));
            if w == n {
                lemma_key_of_injective(w, sfx);
                assert(n.skip(0) =~= n);
            } else {
                let j = choose|j: int| 0 <= j < n.len() && n[j] == 0x2e && w == n.skip(j);
                assert(no_zero_byte(w)) by {
                    assert forall|k: int| 0 <= k < w.len() implies w[k] != 0u8 by {
                        assert(w[k] == n[j + k]);
                    }
                }
                lemma_key_of_injective(w, sfx);
                assert(n.skip(j) == sfx);
            }
        }
    }
}

/// An Ethernet frame with EtherType 0x86DD (IPv6) whose next header byte
/// (byte 20) is 6 (TCP) has its TCP header at 54: after the 14-byte Ethernet
/// header and the 40-byte IPv6 header.
pub proof fn lemma_ethernet_ipv6_tcp_at_54(p: Seq<u8>)
    requires
        p.len() > 20,
        p[0] / 16 != 4,
        p[0] / 16 != 6,
        p[12] == 0x86,
        p[13] == 0xDD,
        p[20] == 6,
    ensures
        tcp_offset(p) == Some(54int),
{
}

/// A bare IPv6 packet whose next header byte (byte 6) is 6 (TCP) has its
/// TCP header right after the 40-byte IPv6 header.
pub proof fn lemma_ipv6_tcp_at_40(p: Seq<u8>)
    requires
        p.len() > 6,
        p[0] / 16 == 6,
        p[6] == 6,
    ensures
        tcp_offset(p) == Some(40int),
{
}

/// A bare IPv4 packet whose protocol byte (byte 9) is 6 (TCP) and whose
/// header length field is at least 5 words has its TCP header right after
/// the IPv4 header, 4 bytes per word.
pub proof fn lemma_ipv4_tcp_after_header(p: Seq<u8>)
    requires
        p.len() > 9,
        p[0] / 16 == 4,
        p[0] % 16 >= 5,
        p[9] == 6,
    ensures
        tcp_offset(p) == Some((p[0] % 16) * 4),
{
}

/// Reading a byte of a packet behind a header of `h.len()` bytes.
proof fn lemma_shift_u8(h: Seq<u8>, r: Seq<u8>, x: int)
    requires
        x >= 0,
    ensures
        u8_at(h + r, x + h.len()) == u8_at(r, x),
{
    if x < r.len() {
        assert((h + r)[x + h.len()] == r[x]);
    }
}

/// Reading a 16-bit value of a packet behind a header of `h.len()` bytes.
proof fn lemma_shift_u16(h: Seq<u8>, r: Seq<u8>, x: int)
    requires
        x >= 0,
    ensures
        u16_at(h + r, x + h.len()) == u16_at(r, x),
{
    if x + 1 < r.len() {
        assert((h + r)[x + h.len()] == r[x]);
        assert((h + r)[x + 1 + h.len()] == r[x + 1]);
    }
}

/// The 14-byte Ethernet header `h` names the protocol of the IP packet `r`
/// that follows it, and its first byte does not read as an IP version.
pub open spec fn ethernet_header_for(h: Seq<u8>, r: Seq<u8>) -> bool {
    &&& h.len() == 14
    &&& h[0] / 16 != 4
    &&& h[0] / 16 != 6
    &&& r.len() > 0
    &&& ((h[12] == 0x86 && h[13] == 0xDD && r[0] / 16 == 6) || (h[12] == 0x08 && h[13] == 0x00 && r[0]
        / 16 == 4))
}

/// Behind an Ethernet header, the TCP header lies 14 bytes further on.
proof fn lemma_tcp_offset_shift(h: Seq<u8>, r: Seq<u8>)
    requires
        ethernet_header_for(h, r),
    ensures
        tcp_offset(h + r) == (match tcp_offset(r) {
            Some(t) => Some(t + 14),
            None => None,
        }),
        tcp_offset(r) matches Some(t) ==> t >= 0,
{
    let q = h + r;
    assert(q[0] == h[0]);
    assert(q[12] == h[12]);
    assert(q[13] == h[13]);
    assert(u16_at(q, 12) == Some(h[12] as int * 256 + h[13] as int));
    lemma_shift_u8(h, r, 0);
    lemma_shift_u8(h, r, 6);
    lemma_shift_u8(h, r, 9);
    assert(u8_at(r, 0) == Some(r[0] as int));
}

/// Behind an Ethernet header, the ClientHello lies 14 bytes further on.
proof fn lemma_hello_offset_shift(h: Seq<u8>, r: Seq<u8>)
    requires
        ethernet_header_for(h, r),
    ensures
        hello_offset(h + r) == (match hello_offset(r) {
            Some(t) => Some(t + 14),
            None => None,
        }),
        hello_offset(r) matches Some(t) ==> t >= 0,
{
    lemma_tcp_offset_shift(h, r);
    if let Some(t) = tcp_offset(r) {
        lemma_shift_u16(h, r, t + 2);
        lemma_shift_u8(h, r, t + 12);
        if let Some(doff_byte) = u8_at(r, t + 12) {
            let doff = (doff_byte / 16) * 4;
            if 20 <= doff <= 60 {
                let rec = t + doff;
                lemma_shift_u8(h, r, rec);
                lemma_shift_u8(h, r, rec + 5);
            }
        }
    }
}

/// Behind an Ethernet header, the extensions lie 14 bytes further on.
proof fn lemma_extensions_shift(h: Seq<u8>, r: Seq<u8>)
    requires
        ethernet_header_for(h, r),
    ensures
        extensions(h + r) == (match extensions(r) {
            Some((b, l)) => Some((b + 14, l)),
            None => None,
        }),
        extensions(r) matches Some((b, l)) ==> b >= 0,
{
    lemma_hello_offset_shift(h, r);
    if let Some(x) = hello_offset(r) {
        lemma_shift_u8(h, r, x);
        if let Some(sid_len) = u8_at(r, x) {
            let c = x + 1 + sid_len;
            lemma_shift_u16(h, r, c);
            if let Some(cs_len) = u16_at(r, c) {
                let m = c + 2 + cs_len;
                lemma_shift_u8(h, r, m);
                if let Some(cp_len) = u8_at(r, m) {
                    let e = m + 1 + cp_len;
                    lemma_shift_u16(h, r, e);
                }
            }
        }
    }
}

/// Behind an Ethernet header, a server name extension holds the same name.
proof fn lemma_name_in_extension_shift(h: Seq<u8>, r: Seq<u8>, body: int)
    requires
        h.len() == 14,
        body >= 0,
    ensures
        name_in_extension(h + r, body + 14) == name_in_extension(r, body),
{
    let q = h + r;
    let s = body + 2;
    lemma_shift_u8(h, r, s);
    lemma_shift_u16(h, r, s + 1);
    assert(body + 14 + 2 == s + 14);
    assert(s + 14 + 1 == s + 1 + 14);
    if let Some(len) = u16_at(r, s + 1) {
        if 0 < len < 128 && s + 3 + len <= r.len() {
            assert(q.subrange(s + 14 + 3, s + 14 + 3 + len) =~= r.subrange(s + 3, s + 3 + len));
        }
    }
}

/// Behind an Ethernet header, walking the extensions finds the same name.
proof fn lemma_walk_extensions_shift(h: Seq<u8>, r: Seq<u8>, base: int, exts_len: int, cur: int, i: nat)
    requires
        h.len() == 14,
        base >= 0,
        cur >= 0,
    ensures
        walk_extensions(h + r, base + 14, exts_len, cur, i) == walk_extensions(r, base, exts_len, cur, i),
    decreases 64 - i,
{
    if i < 64 && cur + 4 <= exts_len {
        lemma_shift_u16(h, r, base + cur);
        lemma_shift_u16(h, r, base + cur + 2);
        assert(base + 14 + cur == base + cur + 14);
        assert(base + 14 + cur + 2 == base + cur + 2 + 14);
        if let (Some(etype), Some(elen)) = (u16_at(r, base + cur), u16_at(r, base + cur + 2)) {
            if etype == 0 {
                lemma_name_in_extension_shift(h, r, base + cur + 4);
                assert(base + 14 + cur + 4 == base + cur + 4 + 14);
            } else {
                let next = cur + 4 + elen;
                if next <= 1024 {
                    lemma_walk_extensions_shift(h, r, base, exts_len, next, i + 1);
                }
            }
        }
    }
}

/// An Ethernet frame that carries an IPv6 packet (EtherType 0x86DD) or an
/// IPv4 packet (EtherType 0x0800) announces the same server name as the
/// bare packet, and is dropped exactly when the bare packet is: the TCP
/// header is looked for 14 bytes further on (at 54 for IPv6). The frame's
/// first byte must not read as an IP version, or the frame is read as a
/// bare IP packet.
pub proof fn lemma_ethernet_frame_same_name(eth: Seq<u8>, ip: Seq<u8>, blocked: Set<Seq<u8>>)
    requires
        ethernet_header_for(eth, ip),
    ensures
        tcp_offset(eth + ip) == (match tcp_offset(ip) {
            Some(t) => Some(t + 14),
            None => None,
        }),
        server_name(eth + ip) == server_name(ip),
        packet_blocked(eth + ip, blocked) == packet_blocked(ip, blocked),
{
    lemma_tcp_offset_shift(eth, ip);
    lemma_extensions_shift(eth, ip);
    if let Some((base, exts_len)) = extensions(ip) {
        lemma_walk_extensions_shift(eth, ip, base, exts_len, 0, 0);
    }
}

} // verus!
