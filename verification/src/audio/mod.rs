pub mod post_process;
