use tracetool::color::DefaultColorGenerator;

#[test]
fn default_colors_repeat_after_the_tenth() {
    let mut generator = DefaultColorGenerator::new();
    let first: Vec<&str> = (0..10).map(|_| generator.next()).collect();
    assert_eq!(
        first,
        vec![
            "#1f77b4", "#ff7f0e", "#2ca02c", "#d62728", "#9467bd", "#8c564b", "#e377c2", "#7f7f7f",
            "#bcbd22", "#17becf",
        ]
    );
    assert_eq!(generator.next(), "#1f77b4");
    assert_eq!(generator.next(), "#ff7f0e");
}
