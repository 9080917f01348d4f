use copc_writer::options::WriterOptions;

#[test]
fn the_default_options_hold_four_gibibytes_and_choose_no_directory() {
    let options = WriterOptions::default();
    assert_eq!(options.memory_budget_bytes, 4_294_967_296);
    assert!(options.temp_dir.is_none());
}
