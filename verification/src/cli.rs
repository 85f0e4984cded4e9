use vstd::prelude::*;

use crate::res::{Interface, InterfaceView};
use crate::set::views;
use crate::text::{chars_of, join, push_char};

verus! {

/// The command line options.
#[derive(Debug)]
pub struct Opts {
    /// Comma-separated list of interfaces to forward packets from.
    pub interfaces: String,
    /// Internal services won't be reachable through this interface.
    pub external_interface: Option<String>,
    /// Internal services will be reachable through these IPs (`x.x.x.x/mask`).
    pub extra_internal_ips: Option<String>,
    pub batch_opts: BatchOpts,
    pub executor: Executor,
}

/// How commands are batched.
#[derive(Debug)]
pub struct BatchOpts {
    /// Batch the execution of iptables commands.
    pub batch_commands: bool,
    /// Maximum command batch size.
    pub batch_size: usize,
}

/// Where commands run.
#[derive(Debug)]
pub enum Executor {
    /// Execute commands locally, when running directly on the host machine.
    Local,
    /// Execute commands through ssh, when running inside the Kubernetes cluster.
    Ssh(SshHost),
}

/// An ssh destination.
#[derive(Debug)]
pub struct SshHost {
    pub host: String,
    pub port: u16,
    pub key_path: String,
}

/// The pieces of `s` between commas, as `str::split(',')` gives them (an empty text gives one
/// empty piece).
pub open spec fn split_commas(s: Seq<char>) -> Seq<Seq<char>>
    decreases s.len(),
{
    if s.len() == 0 {
        seq![Seq::empty()]
    } else {
        let p = split_commas(s.drop_last());
        if s.last() == ',' {
            p.push(Seq::empty())
        } else {
            p.update(p.len() - 1, p.last().push(s.last()))
        }
    }
}

proof fn lemma_split_commas_nonempty(s: Seq<char>)
    ensures
        split_commas(s).len() > 0,
    decreases s.len(),
{
    if s.len() > 0 {
        lemma_split_commas_nonempty(s.drop_last());
    }
}

proof fn lemma_join_extend_last(q: Seq<Seq<char>>, c: char, sep: Seq<char>)
    requires
        q.len() > 0,
    ensures
        join(q.update(q.len() - 1, q.last().push(c)), sep) == join(q, sep).push(c),
{
    let u = q.update(q.len() - 1, q.last().push(c));
    if q.len() == 1 {
        assert(u[0] == q[0].push(c));
    } else {
        assert(u.drop_last() =~= q.drop_last());
        assert(join(u, sep) =~= join(q, sep).push(c));
    }
}

/// Splitting at commas and joining the pieces with commas gives the text back.
pub proof fn lemma_split_join(s: Seq<char>)
    ensures
        join(split_commas(s), seq![',']) == s,
    decreases s.len(),
{
    if s.len() == 0 {
        assert(split_commas(s) =~= seq![Seq::<char>::empty()]);
        assert(s =~= Seq::<char>::empty());
    } else {
        let p = split_commas(s.drop_last());
        lemma_split_join(s.drop_last());
        lemma_split_commas_nonempty(s.drop_last());
        if s.last() == ',' {
            let q = p.push(Seq::<char>::empty());
            assert(q.drop_last() =~= p);
            assert(join(q, seq![',']) =~= s);
        } else {
            lemma_join_extend_last(p, s.last(), seq![',']);
            assert(s.drop_last().push(s.last()) =~= s);
        }
    }
}

/// The interface for one piece of the list: external when it is the external interface.
pub open spec fn listed_interface(name: Seq<char>, external: Option<Seq<char>>) -> InterfaceView {
    InterfaceView { name, is_external: external == Some(name) }
}

/// The interfaces of the list, then `lo` where there is a local address.
pub open spec fn interface_list(
    list: Seq<char>,
    external: Option<Seq<char>>,
    with_loopback: bool,
) -> Seq<InterfaceView> {
    let listed = split_commas(list).map_values(|n: Seq<char>| listed_interface(n, external));
    if with_loopback {
        listed.push(InterfaceView { name: seq!['l', 'o'], is_external: false })
    } else {
        listed
    }
}

/// The pieces of `s` between commas.
pub fn split_on_commas(s: &str) -> (r: Vec<String>)
    ensures
        views(r@) == split_commas(s@),
{
    let chars = chars_of(s);
    let mut pieces: Vec<String> = Vec::new();
    let mut current = String::new();
    for i in 0..chars.len()
        invariant
            chars@ == s@,
            views(pieces@).push(current@) == split_commas(s@.take(i as int)),
    {
        let c = chars[i];
        let ghost before = views(pieces@).push(current@);
        proof {
            assert(s@.take(i + 1).drop_last() =~= s@.take(i as int));
            assert(s@.take(i + 1).last() == c);
            lemma_split_commas_nonempty(s@.take(i as int));
        }
        if c == ',' {
            let done = current;
            pieces.push(done);
            current = String::new();
            assert(views(pieces@).push(current@) =~= before.push(Seq::empty()));
        } else {
            let ghost old_current = current@;
            push_char(&mut current, c);
            assert(views(pieces@).push(current@) =~= before.update(
                before.len() - 1,
                old_current.push(c),
            ));
        }
    }
    assert(s@.take(chars@.len() as int) =~= s@);
    let ghost before = views(pieces@);
    pieces.push(current);
    assert(views(pieces@) =~= before.push(current@));
    pieces
}

impl Opts {
    /// The interfaces to forward from: each one of the comma-separated list, marked external
    /// when it is the external interface, then the loopback interface `lo` where a local
    /// address is known.
    pub fn interface_list(&self, has_local_ip: bool) -> (r: Vec<Interface>)
        ensures
            views(r@) == interface_list(
                self.interfaces@,
                self.external_interface.deep_view(),
                has_local_ip,
            ),
    {
        let ghost external = self.external_interface.deep_view();
        let names = split_on_commas(self.interfaces.as_str());
        let ghost listed = views(names@).map_values(|n: Seq<char>| listed_interface(n, external));
        let mut r: Vec<Interface> = Vec::new();
        for i in 0..names.len()
            invariant
                listed == views(names@).map_values(|n: Seq<char>| listed_interface(n, external)),
                external == self.external_interface.deep_view(),
                views(r@) == listed.take(i as int),
        {
            let mut iface = Interface::new(names[i].as_str());
            match &self.external_interface {
                Some(ext) => {
                    if *ext == names[i] {
                        iface = iface.external();
                    }
                },
                None => {},
            }
            let ghost before = views(r@);
            r.push(iface);
            assert(views(r@) =~= before.push(iface@));
            assert(listed.take(i + 1) =~= listed.take(i as int).push(listed[i as int]));
        }
        assert(listed.take(names@.len() as int) =~= listed);
        assert(listed =~= interface_list(self.interfaces@, external, false));
        if has_local_ip {
            let name = "lo";
            proof {
                reveal_strlit("lo");
                assert(name@ =~= seq!['l', 'o']);
            }
            let lo = Interface::new(name);
            let ghost before = views(r@);
            r.push(lo);
            assert(views(r@) =~= before.push(lo@));
            assert(lo@ == InterfaceView { name: seq!['l', 'o'], is_external: false });
            assert(views(r@) =~= interface_list(self.interfaces@, external, true));
        }
        r
    }
}

} // verus!
