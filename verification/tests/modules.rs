use atlier::modules::editor::{EditorNode, NodeComponent};
use atlier::modules::filesystem::directory::ListDirectory;
use atlier::modules::functions::sine::Sine;
use atlier::modules::functions::time::Time;
use atlier::modules::graphics::color::{BlueChannel, ColorEditor, GreenChannel, RedChannel};
use atlier::system::{Display, NodeExterior, Reducer};

#[test]
fn module_titles() {
    assert_eq!(ListDirectory::title(), "List Directory");
    assert_eq!(ListDirectory::group_name(), "Filesystem");
    assert_eq!(Sine::title(), "Sine");
    assert_eq!(Sine::group_name(), "Functions");
    assert_eq!(Time::title(), "Time");
    assert_eq!(Time::group_name(), "Functions");
    assert_eq!(ColorEditor::title(), "Color Editor");
    assert_eq!(ColorEditor::group_name(), "Graphics");
    assert_eq!(RedChannel::title(), "Red Channel");
    assert_eq!(GreenChannel::title(), "Green Channel");
    assert_eq!(BlueChannel::title(), "Blue Channel");
}

#[test]
fn module_parameters_and_results() {
    assert_eq!(ListDirectory::param_name(), "filepath");
    assert_eq!(ListDirectory::result_name(), "selected files");
    assert_eq!(Sine::param_name(), "input");
    assert_eq!(Sine::result_name(), "sin(input)");
    assert_eq!(Time::param_name(), "enabled");
    assert_eq!(Time::result_name(), "seconds from epoch");
    assert_eq!(RedChannel::param_name(), "red");
    assert_eq!(RedChannel::result_name(), "red_channel");
    assert_eq!(GreenChannel::param_name(), "green");
    assert_eq!(GreenChannel::result_name(), "green_channel");
    assert_eq!(BlueChannel::param_name(), "blue");
    assert_eq!(BlueChannel::result_name(), "blue_channel");
    assert_eq!(ColorEditor::display_name(), "preview");
}

#[test]
fn editor_node_starts_unlinked() {
    let _ = EditorNode::default().clone();
}

#[test]
fn editor_node_dispatch_links_a_part() {
    let node = EditorNode::default();
    let with_input = node.dispatch(NodeComponent::Input);
    let with_both = with_input.dispatch(NodeComponent::Output);
    let _ = with_both.clone();
}
