//! A small TCP port-scanning library: resolving a port specification
//! string into a sequence of ports, a work queue that hands each pending
//! port to exactly one worker, probe-outcome classification, and the
//! formatting of open-port reports.
pub mod ports;
pub mod probe;
pub mod queue;
pub mod report;
