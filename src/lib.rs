//! Routing reports for manufacturing work orders: finished-good chains are
//! rebuilt from the recorded parent links, and every chain is listed with the
//! work orders that realise it.
pub mod finished_good;
pub mod order;
pub mod work_order;
pub mod chains;
pub mod routing;
pub mod report;
