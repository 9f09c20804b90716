use simnet::logging::{DebugLogger, Logger, PrintLogger};

#[test]
fn test_debug_logger() {
    let logger = DebugLogger {};
    logger.header();
    logger.log(1, "TEST", "test detail");
}

#[test]
fn test_print_logger() {
    let logger = PrintLogger {};
    logger.header();
    logger.log(1, "TEST", "test detail");
}
