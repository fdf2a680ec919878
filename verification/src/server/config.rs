//! The configuration of a node and its peers.

use crate::hexes;
use crate::json;
use crate::node::ident;
use crate::node::ident::PublicKey;
use crate::text;
use vstd::prelude::*;

verus! {

#[derive(Debug)]
pub struct Config {
    pub node: Node,
    pub peers: Vec<Peer>,
}

#[derive(Debug)]
pub struct Node {
    /// The authority in scope URLs.
    pub name: String,
    pub data_dir: String,
    pub listen: String,
    /// Where the mesh listens: a port, or a full multiaddress.
    pub p2p_listen: String,
    pub worker_threads: usize,
    /// Does the node take part in the mesh?
    pub mesh_sync: bool,
    /// Seconds between rounds of pulls; none where it is 0.
    pub sync_interval_secs: u64,
    /// Is every write brought to disk before it is acknowledged?
    pub durable_writes: bool,
    /// Seconds between compactions of a node without peers; none where it is 0.
    pub gc_interval_secs: u64,
    pub ratelimit: Ratelimit,
    pub tls: Option<Tls>,
    pub l3: L3,
}

/// The PEM files of a TLS server.
#[derive(Debug)]
pub struct Tls {
    pub cert_path: String,
    pub key_path: String,
}

#[derive(Debug)]
pub struct L3 {
    pub default_quota: u64,
}

#[derive(Debug)]
pub struct Ratelimit {
    pub enabled: bool,
    /// Requests per token and window; no limit where it is 0.
    pub max_requests: u64,
    pub window_secs: u64,
}

#[derive(Debug)]
pub struct Peer {
    pub name: String,
    pub addr: String,
    /// The host key that the peer is pinned to, in hexadecimal; empty before the first
    /// contact.
    pub pin: String,
    /// The namespaces that the peer may write to; all shared ones where there is no list.
    pub namespaces: Option<Vec<String>>,
}

/// A peer as a value of the model.
#[verifier::ext_equal]
pub struct PeerV {
    pub name: Seq<char>,
    pub addr: Seq<char>,
    pub pin: Seq<char>,
    pub namespaces: Option<Seq<Seq<char>>>,
}

impl View for Peer {
    type V = PeerV;

    open spec fn view(&self) -> PeerV {
        PeerV {
            name: self.name@,
            addr: self.addr@,
            pin: self.pin@,
            namespaces: match self.namespaces {
                Some(l) => Some(json::texts(l@)),
                None => None,
            },
        }
    }
}

/// The views of some peers.
pub open spec fn peer_views(ps: Seq<Peer>) -> Seq<PeerV> {
    Seq::new(ps.len(), |i: int| ps[i]@)
}

pub const DEFAULT_QUOTA: u64 = 1_073_741_824;

impl Default for Ratelimit {
    fn default() -> (r: Ratelimit)
        ensures
            r == (Ratelimit { enabled: true, max_requests: 600, window_secs: 60 }),
    {
        Ratelimit { enabled: true, max_requests: 600, window_secs: 60 }
    }
}

impl Default for L3 {
    fn default() -> (l: L3)
        ensures
            l.default_quota == DEFAULT_QUOTA,
    {
        L3 { default_quota: DEFAULT_QUOTA }
    }
}

/// A node as it is without a configuration file.
pub open spec fn is_default_node(n: Node) -> bool {
    &&& n.name@ == "api.bunnymeshdb.test.com"@
    &&& n.data_dir@ == "./data"@
    &&& n.listen@ == "127.0.0.1:8848"@
    &&& n.p2p_listen@ == "9002"@
    &&& n.worker_threads == 4
    &&& n.mesh_sync
    &&& n.sync_interval_secs == 30
    &&& !n.durable_writes
    &&& n.gc_interval_secs == 0
    &&& n.ratelimit == (Ratelimit { enabled: true, max_requests: 600, window_secs: 60 })
    &&& n.tls is None
    &&& n.l3.default_quota == DEFAULT_QUOTA
}

impl Default for Node {
    fn default() -> (n: Node)
        ensures
            is_default_node(n),
    {
        Node {
            name: text::copy_text("api.bunnymeshdb.test.com"),
            data_dir: text::copy_text("./data"),
            listen: text::copy_text("127.0.0.1:8848"),
            p2p_listen: text::copy_text("9002"),
            worker_threads: 4,
            mesh_sync: true,
            sync_interval_secs: 30,
            durable_writes: false,
            gc_interval_secs: 0,
            ratelimit: Ratelimit::default(),
            tls: None,
            l3: L3::default(),
        }
    }
}

impl Default for Config {
    fn default() -> (c: Config)
        ensures
            is_default_node(c.node),
            c.peers@.len() == 0,
    {
        Config { node: Node::default(), peers: Vec::new() }
    }
}

/// The multiaddress that a text writes, in its canonical form; none where it writes none.
pub uninterp spec fn multiaddr_text(s: Seq<char>) -> Option<Seq<char>>;

/// `str::parse` into a `libp2p::Multiaddr` and back to text: it depends on the text
/// alone. Which texts are multiaddresses is left unsaid.
#[verifier::external_body]
pub(crate) fn read_multiaddr(s: &str) -> (r: Option<String>)
    ensures
        match multiaddr_text(s@) {
            Some(t) => r matches Some(a) && a@ == t,
            None => r is None,
        },
{
    s.parse::<libp2p::Multiaddr>().ok().map(|a| a.to_string())
}

/// Is the text a multiaddress?
pub open spec fn multiaddr_ok(s: Seq<char>) -> bool {
    multiaddr_text(s) is Some
}

/// The place of the first peer of a name from `i` on; the end where there is none.
pub open spec fn place_of(ps: Seq<PeerV>, name: Seq<char>, i: int) -> int
    decreases ps.len() - i,
{
    if i < 0 || i >= ps.len() {
        ps.len() as int
    } else if ps[i].name == name {
        i
    } else {
        place_of(ps, name, i + 1)
    }
}

/// The peers without those of a name.
pub open spec fn without(ps: Seq<PeerV>, name: Seq<char>) -> Seq<PeerV>
    decreases ps.len(),
{
    if ps.len() == 0 {
        Seq::empty()
    } else if ps.last().name == name {
        without(ps.drop_last(), name)
    } else {
        without(ps.drop_last(), name).push(ps.last())
    }
}

/// The place of the first peer from `i` on that is pinned to a key.
pub open spec fn pinned_at(ps: Seq<PeerV>, key: Seq<u8>, i: int) -> int
    decreases ps.len() - i,
{
    if i < 0 || i >= ps.len() {
        ps.len() as int
    } else if ident::is_key_text(ps[i].pin) && hexes::hex_bytes(ps[i].pin) == key {
        i
    } else {
        pinned_at(ps, key, i + 1)
    }
}

/// Why a peer cannot be added: its name is taken, its address is none, its pin is no
/// key, or the key is another peer's.
pub open spec fn add_fault(ps: Seq<PeerV>, name: Seq<char>, addr: Seq<char>, pin: Seq<char>) -> Option<Seq<char>> {
    if place_of(ps, name, 0) < ps.len() {
        Some("peer "@ + text::debug_text(name) + " already exists"@)
    } else if !multiaddr_ok(addr) {
        Some("invalid peer addr "@ + text::debug_text(addr))
    } else if pin.len() > 0 && !ident::is_key_text(pin) {
        Some("invalid peer pin "@ + text::debug_text(pin))
    } else if pin.len() > 0 && pinned_at(ps, hexes::hex_bytes(pin), 0) < ps.len() {
        Some(
            "pin already belongs to peer "@ + text::debug_text(
                ps[pinned_at(ps, hexes::hex_bytes(pin), 0)].name,
            ),
        )
    } else {
        None
    }
}

/// A copy of a list of texts.
pub fn copy_texts(l: &Vec<String>) -> (r: Vec<String>)
    ensures
        json::texts(r@) == json::texts(l@),
{
    let mut out: Vec<String> = Vec::new();
    let mut i: usize = 0;
    while i < l.len()
        invariant
            i <= l@.len(),
            json::texts(out@) =~= json::texts(l@).take(i as int),
        decreases l@.len() - i,
    {
        let ghost had = json::texts(out@);
        out.push(text::copy_text(l[i].as_str()));
        assert(json::texts(out@) =~= had.push(l@[i as int]@));
        i += 1;
    }
    out
}

impl Peer {
    /// A copy of a peer.
    pub fn copy(&self) -> (p: Peer)
        ensures
            p@ == self@,
    {
        Peer {
            name: text::copy_text(self.name.as_str()),
            addr: text::copy_text(self.addr.as_str()),
            pin: text::copy_text(self.pin.as_str()),
            namespaces: match &self.namespaces {
                Some(l) => Some(copy_texts(l)),
                None => None,
            },
        }
    }
}

impl Config {
    /// The place of the first peer of a name.
    fn find(&self, name: &str) -> (i: usize)
        ensures
            i == place_of(peer_views(self.peers@), name@, 0),
    {
        let ghost all = peer_views(self.peers@);
        let mut i: usize = 0;
        while i < self.peers.len()
            invariant
                i <= self.peers@.len(),
                all == peer_views(self.peers@),
                place_of(all, name@, 0) == place_of(all, name@, i as int),
            decreases self.peers@.len() - i,
        {
            assert(all[i as int] == self.peers@[i as int]@);
            if text::same_text(self.peers[i].name.as_str(), name) {
                return i;
            }
            i += 1;
        }
        i
    }

    /// The first peer of a name, to be changed.
    pub fn peer_mut(&mut self, name: &str) -> (r: Option<&mut Peer>)
        ensures
            final(self).node == old(self).node,
            ({
                let i = place_of(peer_views(old(self).peers@), name@, 0);
                if i < old(self).peers@.len() {
                    r matches Some(p) && *p == old(self).peers@[i] && final(self).peers@ == old(self).peers@.update(i, *final(p))
                } else {
                    r is None && final(self).peers@ == old(self).peers@
                }
            }),
    {
        let i: usize = self.find(name);
        if i < self.peers.len() {
            Some(&mut self.peers[i])
        } else {
            None
        }
    }

    /// The first peer of a name.
    pub fn peer(&self, name: &str) -> (r: Option<&Peer>)
        ensures
            ({
                let i = place_of(peer_views(self.peers@), name@, 0);
                if i < self.peers@.len() {
                    r matches Some(p) && *p == self.peers@[i]
                } else {
                    r is None
                }
            }),
    {
        let i: usize = self.find(name);
        if i < self.peers.len() {
            Some(&self.peers[i])
        } else {
            None
        }
    }

    /// The place of the first peer that is pinned to a key.
    fn find_pinned(&self, key: &PublicKey) -> (i: usize)
        ensures
            i == pinned_at(peer_views(self.peers@), key@, 0),
    {
        let ghost all = peer_views(self.peers@);
        let mut i: usize = 0;
        while i < self.peers.len()
            invariant
                i <= self.peers@.len(),
                all == peer_views(self.peers@),
                pinned_at(all, key@, 0) == pinned_at(all, key@, i as int),
            decreases self.peers@.len() - i,
        {
            assert(all[i as int] == self.peers@[i as int]@);
            match PublicKey::from_hex(self.peers[i].pin.as_str()) {
                Ok(k) => {
                    if k.same(key) {
                        return i;
                    }
                },
                Err(_) => {},
            }
            i += 1;
        }
        i
    }

    /// Add a peer that may write to every shared namespace and is pinned on first
    /// contact.
    pub fn add_peer(&mut self, name: &str, addr: &str) -> (r: Result<(), String>)
        ensures
            final(self).node == old(self).node,
            match add_fault(peer_views(old(self).peers@), name@, addr@, Seq::empty()) {
                Some(f) => r matches Err(e) && e@ == f && final(self).peers@ == old(self).peers@,
                None => r is Ok && peer_views(final(self).peers@) == peer_views(old(self).peers@).push(
                    PeerV { name: name@, addr: addr@, pin: Seq::empty(), namespaces: None },
                ),
            },
    {
        proof {
            reveal_strlit("");
            assert(""@ =~= Seq::empty());
        }
        self.add_peer_with(name, addr, "", None)
    }

    /// Add a peer with a pin, where it is known, and the namespaces that it may write to.
    pub fn add_peer_with(&mut self, name: &str, addr: &str, pin: &str, namespaces: Option<Vec<String>>) -> (r: Result<
        (),
        String,
    >)
        ensures
            final(self).node == old(self).node,
            match add_fault(peer_views(old(self).peers@), name@, addr@, pin@) {
                Some(f) => r matches Err(e) && e@ == f && final(self).peers@ == old(self).peers@,
                None => r is Ok && peer_views(final(self).peers@) == peer_views(old(self).peers@).push(
                    PeerV {
                        name: name@,
                        addr: addr@,
                        pin: pin@,
                        namespaces: match namespaces {
                            Some(l) => Some(json::texts(l@)),
                            None => None,
                        },
                    },
                ),
            },
    {
        if self.find(name) < self.peers.len() {
            return Err(text::join3("peer ", text::debug_string(name).as_str(), " already exists"));
        }
        if read_multiaddr(addr).is_none() {
            return Err(text::join2("invalid peer addr ", text::debug_string(addr).as_str()));
        }
        proof {
            text::lemma_utf8_len(pin@);
        }
        if pin.as_bytes().len() > 0 {
            match PublicKey::from_hex(pin) {
                Err(_) => {
                    return Err(text::join2("invalid peer pin ", text::debug_string(pin).as_str()));
                },
                Ok(k) => {
                    let i: usize = self.find_pinned(&k);
                    if i < self.peers.len() {
                        return Err(
                            text::join2(
                                "pin already belongs to peer ",
                                text::debug_string(self.peers[i].name.as_str()).as_str(),
                            ),
                        );
                    }
                },
            }
        }
        let ghost had = peer_views(self.peers@);
        let p = Peer {
            name: text::copy_text(name),
            addr: text::copy_text(addr),
            pin: text::copy_text(pin),
            namespaces,
        };
        let ghost pv = p@;
        self.peers.push(p);
        assert(peer_views(self.peers@) =~= had.push(pv));
        Ok(())
    }

    /// Remove the peers of a name. Was there one?
    pub fn remove_peer(&mut self, name: &str) -> (r: bool)
        ensures
            final(self).node == old(self).node,
            peer_views(final(self).peers@) == without(peer_views(old(self).peers@), name@),
            r == (final(self).peers@.len() != old(self).peers@.len()),
    {
        let ghost all = peer_views(self.peers@);
        let n: usize = self.peers.len();
        let mut keep: Vec<Peer> = Vec::new();
        let mut i: usize = 0;
        proof {
            assert(all.take(0) =~= Seq::empty());
            assert(peer_views(keep@) =~= Seq::empty());
        }
        while i < n
            invariant
                i <= n,
                n == self.peers@.len(),
                all == peer_views(self.peers@),
                peer_views(keep@) == without(all.take(i as int), name@),
            decreases n - i,
        {
            let ghost had = peer_views(keep@);
            proof {
                assert(all.take(i + 1).drop_last() =~= all.take(i as int));
                assert(all.take(i + 1).last() == self.peers@[i as int]@);
            }
            if !text::same_text(self.peers[i].name.as_str(), name) {
                let p = self.peers[i].copy();
                let ghost pv = p@;
                keep.push(p);
                assert(peer_views(keep@) =~= had.push(pv));
            }
            i += 1;
        }
        assert(all.take(i as int) =~= all);
        self.peers = keep;
        self.peers.len() != n
    }
}

/// A data directory as seen from the directory of the configuration file: an absolute
/// one stays, a relative one is taken from there.
pub open spec fn resolved(parent: Option<Seq<char>>, dir: Seq<char>) -> Seq<char> {
    match parent {
        None => dir,
        Some(p) => if dir.len() > 0 && dir[0] == '/' {
            dir
        } else if p.len() == 0 || p[p.len() - 1] == '/' {
            p + dir
        } else {
            p + "/"@ + dir
        },
    }
}

/// Where a data directory is, seen from the directory of the configuration file.
pub fn resolve_data_dir(parent: Option<&str>, dir: &str) -> (r: String)
    ensures
        r@ == resolved(
            match parent {
                Some(p) => Some(p@),
                None => None,
            },
            dir@,
        ),
{
    match parent {
        None => text::copy_text(dir),
        Some(p) => {
            let d = text::chars_of(dir);
            let c = text::chars_of(p);
            if d.len() > 0 && d[0] == '/' {
                text::copy_text(dir)
            } else if c.len() == 0 || c[c.len() - 1] == '/' {
                text::join2(p, dir)
            } else {
                text::join3(p, "/", dir)
            }
        },
    }
}

// ---------- laws ----------

proof fn lemma_without_name(ps: Seq<PeerV>, name: Seq<char>, i: int)
    requires
        0 <= i < without(ps, name).len(),
    ensures
        without(ps, name)[i].name != name,
    decreases ps.len(),
{
    let less = without(ps.drop_last(), name);
    if ps.last().name == name || i < less.len() {
        lemma_without_name(ps.drop_last(), name, i);
    }
}

/// No peer of a name is left once they were removed.
pub proof fn law_removed_peer_is_gone(ps: Seq<PeerV>, name: Seq<char>)
    ensures
        place_of(without(ps, name), name, 0) == without(ps, name).len(),
{
    lemma_absent(without(ps, name), ps, name, 0);
}

proof fn lemma_absent(w: Seq<PeerV>, ps: Seq<PeerV>, name: Seq<char>, i: int)
    requires
        w == without(ps, name),
        0 <= i <= w.len(),
    ensures
        place_of(w, name, i) == w.len(),
    decreases w.len() - i,
{
    if i < w.len() {
        lemma_without_name(ps, name, i);
        lemma_absent(w, ps, name, i + 1);
    }
}

/// A name is added once, and a key belongs to one peer: what was added cannot be
/// added again under the name or with the pin.
pub proof fn law_peers_are_distinct(ps: Seq<PeerV>, p: PeerV, name: Seq<char>, addr: Seq<char>)
    requires
        add_fault(ps, p.name, p.addr, p.pin) is None,
        multiaddr_ok(addr),
    ensures
        add_fault(ps.push(p), p.name, addr, Seq::empty()) is Some,
        p.pin.len() > 0 ==> add_fault(ps.push(p), name, addr, p.pin) is Some,
{
    lemma_place_found(ps.push(p), p.name, 0, ps.len() as int);
    if p.pin.len() > 0 {
        lemma_pin_found(ps.push(p), hexes::hex_bytes(p.pin), 0, ps.len() as int);
    }
}

/// A name that a peer has is found.
pub proof fn lemma_place_found(ps: Seq<PeerV>, name: Seq<char>, i: int, j: int)
    requires
        0 <= i <= j < ps.len(),
        ps[j].name == name,
    ensures
        place_of(ps, name, i) < ps.len(),
    decreases j - i,
{
    if ps[i].name != name {
        lemma_place_found(ps, name, i + 1, j);
    }
}

/// A key that a peer is pinned to is found.
pub proof fn lemma_pin_found(ps: Seq<PeerV>, key: Seq<u8>, i: int, j: int)
    requires
        0 <= i <= j < ps.len(),
        ident::is_key_text(ps[j].pin),
        hexes::hex_bytes(ps[j].pin) == key,
    ensures
        pinned_at(ps, key, i) < ps.len(),
    decreases j - i,
{
    if !(ident::is_key_text(ps[i].pin) && hexes::hex_bytes(ps[i].pin) == key) {
        lemma_pin_found(ps, key, i + 1, j);
    }
}

/// A data directory that starts at the root stays; any other lies in the directory of the
/// configuration file, with one slash between them.
pub proof fn law_data_directory_lies_beside_the_file(parent: Seq<char>, dir: Seq<char>)
    requires
        dir.len() > 0,
    ensures
        resolved(None, dir) == dir,
        dir[0] == '/' ==> resolved(Some(parent), dir) == dir,
        dir[0] != '/' && parent.len() > 0 && parent.last() != '/' ==> resolved(Some(parent), dir) == parent + seq!['/'] + dir,
        dir[0] != '/' && parent.len() > 0 && parent.last() == '/' ==> resolved(Some(parent), dir) == parent + dir,
{
    reveal_strlit("/");
    assert("/"@ =~= seq!['/']);
}

} // verus!
