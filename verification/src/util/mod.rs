pub mod dirty;
pub mod ring_buf;
pub mod sync;
pub mod mem_util;
pub mod quote;
pub mod hosts_parser_util;
pub mod object_id;
pub mod mpx_util;
pub mod untrusted_slice;
pub mod resolv_conf_util;
pub mod host_file_util;
