use dirty_daw::docs::html;
use dirty_daw::graph::ALL;

#[test]
fn manual_lists_every_node() {
    let body = html();
    for k in ALL {
        assert!(body.contains(&format!("<h3>{}</h3>", k.name())), "{} missing", k.name());
    }
    assert!(body.contains("bpm 128"));
    assert!(body.starts_with("<!doctype html>"));
}

#[test]
fn manual_sections_come_from_the_tables() {
    let body = html();
    assert!(body.contains("<section id=\"OSC\"><h3>OSC</h3>"));
    assert!(body.contains("<b>freq</b> = 440"));
    assert!(body.contains("<kbd>a</kbd> then <kbd>o</kbd>"));
    assert!(body.contains("&gt;, &lt;"));
    assert!(body.contains("S&amp;H"));
}
