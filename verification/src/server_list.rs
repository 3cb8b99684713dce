//! The list of servers that a connect token is good for, carried in the
//! token's open data.

use vstd::prelude::*;
use crate::addr::Addr;
use crate::token::DATA;

verus! {

/// At most this many servers go into a list.
pub const SERVER_LIST_LEN: usize = 32;

/// Up to 32 server addresses.
pub struct ServerList {
    servers: Vec<Addr>,
}

impl View for ServerList {
    type V = Seq<Addr>;

    closed spec fn view(&self) -> Seq<Addr> {
        self.servers@
    }
}

impl ServerList {
    #[verifier::type_invariant]
    closed spec fn inv(self) -> bool {
        self.servers@.len() <= SERVER_LIST_LEN
    }

    /// An empty list.
    pub fn new() -> (r: Self)
        ensures
            r@ == Seq::<Addr>::empty(),
    {
        ServerList { servers: Vec::new() }
    }

    /// Appends an address; a full list gives it back.
    pub fn push(&mut self, addr: Addr) -> (r: Result<(), Addr>)
        ensures
            r is Ok <==> old(self)@.len() < SERVER_LIST_LEN,
            r is Ok ==> final(self)@ == old(self)@.push(addr),
            r is Err ==> final(self)@ == old(self)@ && r == Err::<(), Addr>(addr),
    {
        proof { use_type_invariant(&*self); }
        if self.servers.len() < SERVER_LIST_LEN {
            let mut servers: Vec<Addr> = Vec::new();
            std::mem::swap(&mut servers, &mut self.servers);
            servers.push(addr);
            self.servers = servers;
            Ok(())
        } else {
            Err(addr)
        }
    }

    /// The list holds the address.
    pub fn contains(&self, addr: &Addr) -> (r: bool)
        ensures
            r == self@.contains(*addr),
    {
        let mut i: usize = 0;
        while i < self.servers.len()
            invariant
                i <= self.servers@.len(),
                forall|j: int| 0 <= j < i ==> self.servers@[j] != *addr,
            decreases self.servers@.len() - i,
        {
            if self.servers[i] == *addr {
                assert(self@[i as int] == *addr);
                return true;
            }
            i = i + 1;
        }
        false
    }

    /// The addresses.
    pub fn as_slice(&self) -> (r: &[Addr])
        ensures
            r@ == self@,
    {
        self.servers.as_slice()
    }

    /// Places serialized list bytes at the start of a zeroed open-data
    /// block; bytes that do not fit give nothing.
    pub fn frame(temp: &[u8]) -> (r: Option<[u8; DATA]>)
        ensures
            r is Some <==> temp@.len() <= DATA,
            r is Some ==> r.unwrap()@ == temp@ + Seq::new((DATA - temp@.len()) as nat, |i: int| 0u8),
    {
        if temp.len() > DATA {
            return None;
        }
        let mut data = [0u8; DATA];
        let n = crate::bytes::copy_prefix(&mut data, temp);
        assert(data@ =~= temp@ + Seq::new((DATA - temp@.len()) as nat, |i: int| 0u8));
        Some(data)
    }
}

impl Default for ServerList {
    fn default() -> (r: Self)
        ensures
            r@ == Seq::<Addr>::empty(),
    {
        Self::new()
    }
}

} // verus!
