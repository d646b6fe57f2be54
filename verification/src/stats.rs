//! Server counters: connections accepted, connections open, commands run.
//! Every counter wraps around on overflow.
use vstd::prelude::*;

verus! {

pub struct Stats {
    pub total_connections: u64,
    pub active_connections: i64,
    pub total_commands: u64,
    /// When the server started, in milliseconds on the server's clock.
    pub started_at: u64,
    /// The address the server listens on, once it is bound.
    pub addr: String,
}

/// `x + 1`, wrapping to 0 after `u64::MAX`.
pub open spec fn inc_u64(x: u64) -> u64 {
    if x == u64::MAX {
        0
    } else {
        (x + 1) as u64
    }
}

/// `x + 1`, wrapping to `i64::MIN` after `i64::MAX`.
pub open spec fn inc_i64(x: i64) -> i64 {
    if x == i64::MAX {
        i64::MIN
    } else {
        (x + 1) as i64
    }
}

/// `x - 1`, wrapping to `i64::MAX` below `i64::MIN`.
pub open spec fn dec_i64(x: i64) -> i64 {
    if x == i64::MIN {
        i64::MAX
    } else {
        (x - 1) as i64
    }
}

impl Stats {
    /// All counters at zero, no address yet.
    pub fn new(started_at: u64) -> (s: Self)
        ensures
            s.total_connections == 0,
            s.active_connections == 0,
            s.total_commands == 0,
            s.started_at == started_at,
            s.addr@ == Seq::<char>::empty(),
    {
        Stats {
            total_connections: 0,
            active_connections: 0,
            total_commands: 0,
            started_at,
            addr: String::new(),
        }
    }

    /// A connection was accepted: one more in total, one more open.
    pub fn inc_conn(&mut self)
        ensures
            final(self).total_connections == inc_u64(old(self).total_connections),
            final(self).active_connections == inc_i64(old(self).active_connections),
            final(self).total_commands == old(self).total_commands,
            final(self).started_at == old(self).started_at,
            final(self).addr == old(self).addr,
    {
        self.total_connections = self.total_connections.wrapping_add(1);
        self.active_connections = self.active_connections.wrapping_add(1);
    }

    /// A connection was closed: one fewer open.
    pub fn dec_conn(&mut self)
        ensures
            final(self).active_connections == dec_i64(old(self).active_connections),
            final(self).total_connections == old(self).total_connections,
            final(self).total_commands == old(self).total_commands,
            final(self).started_at == old(self).started_at,
            final(self).addr == old(self).addr,
    {
        self.active_connections = self.active_connections.wrapping_sub(1);
    }

    /// A command was run.
    pub fn bump(&mut self)
        ensures
            final(self).total_commands == inc_u64(old(self).total_commands),
            final(self).total_connections == old(self).total_connections,
            final(self).active_connections == old(self).active_connections,
            final(self).started_at == old(self).started_at,
            final(self).addr == old(self).addr,
    {
        self.total_commands = self.total_commands.wrapping_add(1);
    }
}

} // verus!
