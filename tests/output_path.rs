use star_counter::output_path::{create_output_path, OutputFileName};

#[test]
fn derived_name_replaces_extension() {
    let r = create_output_path(OutputFileName::FromOriginal("sky.png".to_string()));
    assert_eq!(r, "sky-starred.jpg");
}

#[test]
fn derived_name_stops_at_first_dot() {
    let r = create_output_path(OutputFileName::FromOriginal("night.sky.tar.gz".to_string()));
    assert_eq!(r, "night-starred.jpg");
}

#[test]
fn derived_name_of_hidden_file_is_bare_suffix() {
    let r = create_output_path(OutputFileName::FromOriginal(".png".to_string()));
    assert_eq!(r, "-starred.jpg");
}

#[test]
fn custom_name_is_kept() {
    let r = create_output_path(OutputFileName::Custom("out.bmp".to_string()));
    assert_eq!(r, "out.bmp");
}
