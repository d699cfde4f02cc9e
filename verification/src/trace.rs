//! Per-frame timing records. Reading the clock and writing the file are left
//! to the caller.
use vstd::prelude::*;
use crate::format::{decimal, push_decimal, push_text};

verus! {

/// Whether records are kept, and how often and how long the text was collected
/// since the last one.
pub struct Tracer {
    pub on: bool,
    pub collects: u32,
    pub collect_ns: u64,
}

pub open spec fn frame_text(
    total: int,
    handle: int,
    render: int,
    collects: int,
    collect: int,
    bytes: int,
) -> Seq<char> {
    "frame\ttotal_us="@ + decimal(total / 1000) + "\thandle_us="@ + decimal(handle / 1000)
        + "\trender_us="@ + decimal(render / 1000) + "\tcollects="@ + decimal(collects)
        + "\tcollect_us="@ + decimal(collect / 1000) + "\tbytes="@ + decimal(bytes)
}

impl Tracer {
    /// A tracer without counts.
    pub fn new(on: bool) -> (t: Tracer)
        ensures
            t == (Tracer { on, collects: 0, collect_ns: 0 }),
    {
        Tracer { on, collects: 0, collect_ns: 0 }
    }

    /// Whether records are kept.
    pub fn enabled(&self) -> (r: bool)
        ensures
            r == self.on,
    {
        self.on
    }

    /// Count one collection that took `ns` nanoseconds, if records are kept. The
    /// counters wrap around.
    pub fn record_collect(&mut self, ns: u64)
        ensures
            final(self).on == old(self).on,
            old(self).on ==> final(self).collects == (old(self).collects + 1) % 0x1_0000_0000
                && final(self).collect_ns == (old(self).collect_ns + ns) % 0x1_0000_0000_0000_0000,
            !old(self).on ==> *final(self) == *old(self),
    {
        if self.on {
            self.collects = self.collects.wrapping_add(1);
            self.collect_ns = self.collect_ns.wrapping_add(ns);
        }
    }

    /// The record of a frame, if records are kept; the counters start anew.
    pub fn emit_frame(&mut self, total_ns: u64, handle_ns: u64, render_ns: u64, bytes_size: u64) -> (r:
        Option<String>)
        ensures
            r is Some <==> old(self).on,
            r matches Some(s) ==> s@ == frame_text(
                total_ns as int,
                handle_ns as int,
                render_ns as int,
                old(self).collects as int,
                old(self).collect_ns as int,
                bytes_size as int,
            ),
            old(self).on ==> *final(self) == (Tracer { on: true, collects: 0, collect_ns: 0 }),
            !old(self).on ==> *final(self) == *old(self),
    {
        if !self.on {
            return None;
        }
        let mut r = String::new();
        push_text(&mut r, "frame\ttotal_us=");
        push_decimal(&mut r, total_ns / 1000);
        push_text(&mut r, "\thandle_us=");
        push_decimal(&mut r, handle_ns / 1000);
        push_text(&mut r, "\trender_us=");
        push_decimal(&mut r, render_ns / 1000);
        push_text(&mut r, "\tcollects=");
        push_decimal(&mut r, self.collects as u64);
        push_text(&mut r, "\tcollect_us=");
        push_decimal(&mut r, self.collect_ns / 1000);
        push_text(&mut r, "\tbytes=");
        push_decimal(&mut r, bytes_size);
        assert(Seq::<char>::empty() + "frame\ttotal_us="@ =~= "frame\ttotal_us="@);
        self.collects = 0;
        self.collect_ns = 0;
        Some(r)
    }
}

}
