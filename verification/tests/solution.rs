use getstartproj::grammar::ManifestKind;
use getstartproj::graph::find_roots;
use getstartproj::graph::holds;
use getstartproj::graph::is_named;
use getstartproj::path::ProjectPath;
use getstartproj::resolve::get_canonical_dir;
use getstartproj::resolve::get_canonical_path;
use getstartproj::resolve::get_resolution_target;
use getstartproj::snapshot::Snapshot;
use getstartproj::solution::get_dependency_graph;
use getstartproj::solution::get_project_dependency_paths;
use getstartproj::solution::get_project_paths;
use getstartproj::solution::get_referenced_paths;
use getstartproj::solution::get_resolution_targets;
use getstartproj::solution::get_start_project_paths;
use getstartproj::solution::get_start_projects;

fn path(s: &str) -> ProjectPath {
    ProjectPath::parse(s.as_bytes())
}

fn paths(items: &[&str]) -> Vec<ProjectPath> {
    items.iter().map(|s| path(s)).collect()
}

fn member_line(name: &str, file: &str) -> String {
    format!(
        "Project(\"{{FAE04EC0-301F-11D3-BF4B-00C04F79EFBC}}\") = \"{}\", \"{}\", \"{{GUID-{}}}\"\r\nEndProject\r\n",
        name, file, name
    )
}

fn solution_text(files: &[&str]) -> String {
    let mut text = String::from("\r\nMicrosoft Visual Studio Solution File, Format Version 12.00\r\n");
    for file in files {
        text.push_str(&member_line("P", file));
    }
    text.push_str("Global\r\nEndGlobal\r\n");
    text
}

fn project_text(references: &[&str]) -> String {
    let mut text = String::from("<Project Sdk=\"Microsoft.NET.Sdk\">\n  <ItemGroup>\n");
    for reference in references {
        text.push_str(&format!("    <ProjectReference Include=\"{}\" />\n", reference));
    }
    text.push_str("  </ItemGroup>\n</Project>\n");
    text
}

fn snapshot(files: &[(&str, String)]) -> Snapshot {
    let mut fs = Snapshot::new();
    for (name, contents) in files {
        fs.add_manifest(path(name), contents.as_bytes().to_vec());
    }
    fs
}

#[test]
fn solution_with_one_reference_has_the_referrer_as_its_start_project() {
    let fs = snapshot(&[
        ("/work/app.sln", solution_text(&["A.csproj", "B.csproj"])),
        ("/work/A.csproj", project_text(&["B.csproj"])),
        ("/work/B.csproj", project_text(&[])),
    ]);
    let found = get_start_projects(&path("/work/app.sln"), &fs);
    assert_eq!(found.members, paths(&["/work/A.csproj", "/work/B.csproj"]));
    assert_eq!(found.roots, paths(&["/work/A.csproj"]));
}

#[test]
fn chain_of_three_has_its_head_as_the_only_start_project() {
    let fs = snapshot(&[
        ("/work/app.sln", solution_text(&["A\\A.csproj", "B\\B.csproj", "C\\C.csproj"])),
        ("/work/A/A.csproj", project_text(&["..\\B\\B.csproj"])),
        ("/work/B/B.csproj", project_text(&["..\\C\\C.csproj"])),
        ("/work/C/C.csproj", project_text(&[])),
    ]);
    let found = get_start_projects(&path("/work/app.sln"), &fs);
    assert_eq!(
        found.members,
        paths(&["/work/A/A.csproj", "/work/B/B.csproj", "/work/C/C.csproj"])
    );
    assert_eq!(found.roots, paths(&["/work/A/A.csproj"]));
}

#[test]
fn member_line_with_backslashes_gives_a_member_below_the_solution() {
    let contents = "Project(\"{...}\") = \"X\", \"sub\\X.csproj\", \"{GUID}\"\n";
    let fs = snapshot(&[("/work/app.sln", contents.to_string())]);
    let members = get_project_paths(&path("/work/app.sln"), &fs);
    assert_eq!(members, paths(&["/work/sub/X.csproj"]));
    let dir = get_canonical_dir(&path("/work/app.sln"), &fs);
    assert_eq!(members[0].relative_to(&dir), Some(path("sub/X.csproj")));
}

#[test]
fn project_without_reference_lines_has_no_dependencies() {
    let plain = "<Project Sdk=\"Microsoft.NET.Sdk\">\n  <PropertyGroup />\n</Project>\n";
    let fs = snapshot(&[
        ("/work/app.sln", solution_text(&["A.csproj", "B.csproj"])),
        ("/work/A.csproj", plain.to_string()),
        ("/work/B.csproj", plain.to_string()),
    ]);
    let sln = path("/work/app.sln");
    assert_eq!(
        get_project_dependency_paths(&path("/work/A.csproj"), &sln, &fs),
        Vec::<ProjectPath>::new()
    );
    let members = get_project_paths(&sln, &fs);
    assert_eq!(get_start_project_paths(&members, &sln, &fs), members);
}

#[test]
fn solution_without_members_has_no_start_projects() {
    let fs = snapshot(&[("/work/app.sln", solution_text(&[]))]);
    let found = get_start_projects(&path("/work/app.sln"), &fs);
    assert_eq!(found.members, Vec::<ProjectPath>::new());
    assert_eq!(found.roots, Vec::<ProjectPath>::new());
}

#[test]
fn missing_solution_manifest_has_no_members() {
    let fs = Snapshot::new();
    let found = get_start_projects(&path("/work/app.sln"), &fs);
    assert_eq!(found.members, Vec::<ProjectPath>::new());
    assert_eq!(found.roots, Vec::<ProjectPath>::new());
}

#[test]
fn missing_project_manifest_has_no_dependencies() {
    let fs = snapshot(&[
        ("/work/app.sln", solution_text(&["A.csproj", "B.csproj"])),
        ("/work/B.csproj", project_text(&["A.csproj"])),
    ]);
    let sln = path("/work/app.sln");
    assert_eq!(
        get_project_dependency_paths(&path("/work/A.csproj"), &sln, &fs),
        Vec::<ProjectPath>::new()
    );
    let found = get_start_projects(&sln, &fs);
    assert_eq!(found.roots, paths(&["/work/B.csproj"]));
}

#[test]
fn members_without_references_are_all_start_projects() {
    let fs = snapshot(&[
        ("/work/app.sln", solution_text(&["A.csproj", "B.vbproj", "C.csproj"])),
        ("/work/A.csproj", project_text(&[])),
        ("/work/B.vbproj", project_text(&[])),
        ("/work/C.csproj", project_text(&[])),
    ]);
    let found = get_start_projects(&path("/work/app.sln"), &fs);
    assert_eq!(found.roots, found.members);
    assert_eq!(found.roots, paths(&["/work/A.csproj", "/work/B.vbproj", "/work/C.csproj"]));
}

#[test]
fn two_members_that_refer_to_each_other_leave_no_start_project() {
    let fs = snapshot(&[
        ("/work/app.sln", solution_text(&["A.csproj", "B.csproj"])),
        ("/work/A.csproj", project_text(&["B.csproj"])),
        ("/work/B.csproj", project_text(&["A.csproj"])),
    ]);
    let found = get_start_projects(&path("/work/app.sln"), &fs);
    assert_eq!(found.members.len(), 2);
    assert_eq!(found.roots, Vec::<ProjectPath>::new());
}

#[test]
fn cycle_below_a_start_project_leaves_that_start_project() {
    let fs = snapshot(&[
        ("/work/app.sln", solution_text(&["A.csproj", "B.csproj", "C.csproj"])),
        ("/work/A.csproj", project_text(&["B.csproj"])),
        ("/work/B.csproj", project_text(&["C.csproj"])),
        ("/work/C.csproj", project_text(&["B.csproj"])),
    ]);
    let found = get_start_projects(&path("/work/app.sln"), &fs);
    assert_eq!(found.roots, paths(&["/work/A.csproj"]));
}

#[test]
fn member_that_refers_to_itself_is_no_start_project() {
    let fs = snapshot(&[
        ("/work/app.sln", solution_text(&["A.csproj", "B.csproj"])),
        ("/work/A.csproj", project_text(&["A.csproj"])),
        ("/work/B.csproj", project_text(&[])),
    ]);
    let found = get_start_projects(&path("/work/app.sln"), &fs);
    assert_eq!(found.roots, paths(&["/work/B.csproj"]));
}

#[test]
fn start_projects_are_members_in_the_order_of_the_solution() {
    let fs = snapshot(&[
        ("/work/app.sln", solution_text(&["D.csproj", "A.csproj", "C.csproj", "B.csproj"])),
        ("/work/A.csproj", project_text(&["C.csproj"])),
        ("/work/B.csproj", project_text(&[])),
        ("/work/C.csproj", project_text(&[])),
        ("/work/D.csproj", project_text(&["C.csproj"])),
    ]);
    let found = get_start_projects(&path("/work/app.sln"), &fs);
    assert_eq!(found.roots, paths(&["/work/D.csproj", "/work/A.csproj", "/work/B.csproj"]));
    for root in &found.roots {
        assert!(holds(&found.members, root));
    }
}

#[test]
fn absolute_reference_outside_the_solution_never_appears() {
    let fs = snapshot(&[
        (
            "/work/app.sln",
            solution_text(&["A.csproj", "/elsewhere/E.csproj", "C:\\other\\F.csproj", "..\\up\\G.csproj"]),
        ),
        ("/work/A.csproj", project_text(&["/elsewhere/E.csproj", "D:\\x\\H.csproj", "..\\shared\\S.csproj"])),
    ]);
    let sln = path("/work/app.sln");
    assert_eq!(get_project_paths(&sln, &fs), paths(&["/work/A.csproj"]));
    assert_eq!(
        get_project_dependency_paths(&path("/work/A.csproj"), &sln, &fs),
        Vec::<ProjectPath>::new()
    );
    let found = get_start_projects(&sln, &fs);
    assert_eq!(found.roots, paths(&["/work/A.csproj"]));
}

#[test]
fn absolute_reference_inside_the_solution_is_kept() {
    let fs = snapshot(&[
        ("/work/app.sln", solution_text(&["/work/sub/A.csproj", "B.csproj"])),
        ("/work/B.csproj", project_text(&["\\work\\sub\\A.csproj"])),
    ]);
    let found = get_start_projects(&path("/work/app.sln"), &fs);
    assert_eq!(found.members, paths(&["/work/sub/A.csproj", "/work/B.csproj"]));
    assert_eq!(found.roots, paths(&["/work/B.csproj"]));
}

#[test]
fn reference_is_read_in_the_directory_of_the_referring_project() {
    let fs = snapshot(&[
        ("/work/app.sln", solution_text(&["App\\App.csproj", "Lib\\Lib.csproj", "Lib.csproj"])),
        ("/work/App/App.csproj", project_text(&["..\\Lib\\Lib.csproj"])),
    ]);
    let sln = path("/work/app.sln");
    assert_eq!(
        get_project_dependency_paths(&path("/work/App/App.csproj"), &sln, &fs),
        paths(&["/work/Lib/Lib.csproj"])
    );
    assert_eq!(
        get_start_projects(&sln, &fs).roots,
        paths(&["/work/App/App.csproj", "/work/Lib.csproj"])
    );
}

#[test]
fn reference_to_a_project_that_is_no_member_removes_nothing() {
    let fs = snapshot(&[
        ("/work/app.sln", solution_text(&["A.csproj"])),
        ("/work/A.csproj", project_text(&["tools\\T.csproj"])),
    ]);
    let sln = path("/work/app.sln");
    assert_eq!(
        get_project_dependency_paths(&path("/work/A.csproj"), &sln, &fs),
        paths(&["/work/tools/T.csproj"])
    );
    assert_eq!(get_start_projects(&sln, &fs).roots, paths(&["/work/A.csproj"]));
}

#[test]
fn different_spellings_of_one_project_are_one_project() {
    let fs = snapshot(&[
        ("/work/app.sln", solution_text(&["App\\App.csproj", "Lib/Lib.csproj"])),
        ("/work/App/App.csproj", project_text(&[".\\..\\App\\..\\Lib\\.\\Lib.csproj"])),
    ]);
    let found = get_start_projects(&path("/work/app.sln"), &fs);
    assert_eq!(found.roots, paths(&["/work/App/App.csproj"]));
}

#[test]
fn resolved_paths_take_the_place_of_their_targets() {
    let mut fs = snapshot(&[
        ("/link/app.sln", solution_text(&["App\\App.csproj", "lib\\lib.csproj"])),
        ("/real/App/App.csproj", project_text(&["..\\LIB\\Lib.csproj"])),
    ]);
    fs.add_link(path("/link"), path("/real"));
    fs.add_link(path("/link/App/App.csproj"), path("/real/App/App.csproj"));
    fs.add_link(path("/link/lib/lib.csproj"), path("/real/Lib/Lib.csproj"));
    fs.add_link(path("/real/LIB/Lib.csproj"), path("/real/Lib/Lib.csproj"));
    let sln = path("/link/app.sln");
    assert_eq!(get_canonical_dir(&sln, &fs), path("/real"));
    let found = get_start_projects(&sln, &fs);
    assert_eq!(found.members, paths(&["/real/App/App.csproj", "/real/Lib/Lib.csproj"]));
    assert_eq!(found.roots, paths(&["/real/App/App.csproj"]));
}

#[test]
fn unresolved_member_below_a_resolved_directory_is_dropped() {
    let mut fs = snapshot(&[("/link/app.sln", solution_text(&["A.csproj", "B.csproj"]))]);
    fs.add_link(path("/link"), path("/real"));
    fs.add_link(path("/link/A.csproj"), path("/real/A.csproj"));
    assert_eq!(get_project_paths(&path("/link/app.sln"), &fs), paths(&["/real/A.csproj"]));
}

#[test]
fn reference_that_resolves_into_the_solution_is_kept() {
    let mut fs = snapshot(&[("/work/app.sln", solution_text(&["/mnt/alias/A.csproj"]))]);
    fs.add_link(path("/mnt/alias/A.csproj"), path("/work/A.csproj"));
    assert_eq!(get_project_paths(&path("/work/app.sln"), &fs), paths(&["/work/A.csproj"]));
}

#[test]
fn reference_that_resolves_out_of_the_solution_is_dropped() {
    let mut fs = snapshot(&[("/work/app.sln", solution_text(&["A.csproj"]))]);
    fs.add_link(path("/work/A.csproj"), path("/elsewhere/A.csproj"));
    assert_eq!(get_project_paths(&path("/work/app.sln"), &fs), Vec::<ProjectPath>::new());
}

#[test]
fn dangling_reference_falls_back_to_its_normal_form() {
    let fs = snapshot(&[
        ("/work/app.sln", solution_text(&["A.csproj", "gone\\Gone.csproj"])),
        ("/work/A.csproj", project_text(&["gone\\..\\gone\\Gone.csproj"])),
    ]);
    let found = get_start_projects(&path("/work/app.sln"), &fs);
    assert_eq!(found.members, paths(&["/work/A.csproj", "/work/gone/Gone.csproj"]));
    assert_eq!(found.roots, paths(&["/work/A.csproj"]));
}

#[test]
fn canonical_path_of_a_relative_reference_lies_beside_the_manifest() {
    let fs = Snapshot::new();
    let base = path("/work/app/App.csproj");
    assert_eq!(get_canonical_path(b"X.csproj", &base, &fs), path("/work/app/X.csproj"));
    assert_eq!(get_canonical_path(b"..\\X.csproj", &base, &fs), path("/work/X.csproj"));
    assert_eq!(get_canonical_path(b"", &base, &fs), path("/work/app"));
    assert_eq!(get_resolution_target(b"..\\X.csproj", &base), path("/work/X.csproj"));
}

#[test]
fn canonical_path_of_an_absolute_reference_does_not_depend_on_the_manifest() {
    let fs = Snapshot::new();
    for base in ["/work/app/App.csproj", "/", "rel/x.sln", "C:\\s\\t.sln"] {
        assert_eq!(get_canonical_path(b"/q/X.csproj", &path(base), &fs), path("/q/X.csproj"));
        assert_eq!(get_canonical_path(b"E:\\q\\X.csproj", &path(base), &fs), path("E:/q/X.csproj"));
    }
}

#[test]
fn canonical_path_of_a_canonical_path_is_that_path() {
    let mut fs = Snapshot::new();
    fs.add_link(path("/link/A.csproj"), path("/real/A.csproj"));
    fs.add_link(path("/real/A.csproj"), path("/real/A.csproj"));
    let base = path("/link/app.sln");
    let once = get_canonical_path(b"A.csproj", &base, &fs);
    assert_eq!(once, path("/real/A.csproj"));
    let twice = get_canonical_path(&once.to_text(), &base, &fs);
    assert_eq!(twice, once);
    let thrice = get_canonical_path(&twice.to_text(), &path("/any/where.csproj"), &fs);
    assert_eq!(thrice, once);
    let loose = get_canonical_path(b"sub\\..\\B.csproj", &base, &fs);
    assert_eq!(loose, path("/link/B.csproj"));
    assert_eq!(get_canonical_path(&loose.to_text(), &path("/x/y.sln"), &fs), loose);
}

#[test]
fn canonical_dir_is_the_resolved_directory_of_the_manifest() {
    let mut fs = Snapshot::new();
    assert_eq!(get_canonical_dir(&path("/work/app.sln"), &fs), path("/work"));
    assert_eq!(get_canonical_dir(&path("/app.sln"), &fs), path("/"));
    assert_eq!(get_canonical_dir(&path("app.sln"), &fs), path(""));
    fs.add_link(path("/work"), path("/mnt/disk/work"));
    assert_eq!(get_canonical_dir(&path("/work/app.sln"), &fs), path("/mnt/disk/work"));
    assert_eq!(get_canonical_dir(&path("/work/sub/app.sln"), &fs), path("/work/sub"));
}

#[test]
fn snapshot_gives_back_what_was_recorded_last() {
    let mut fs = Snapshot::new();
    let a = path("/work/A.csproj");
    assert_eq!(fs.contents_of(&a), None);
    assert_eq!(fs.resolve(&a), a);
    fs.add_manifest(path("/work/A.csproj"), b"first".to_vec());
    fs.add_manifest(path("/work/B.csproj"), b"other".to_vec());
    assert_eq!(fs.contents_of(&a), Some(&b"first".to_vec()));
    fs.add_manifest(path("\\work\\.\\A.csproj"), b"second".to_vec());
    assert_eq!(fs.contents_of(&a), Some(&b"second".to_vec()));
    assert_eq!(fs.contents_of(&path("/work/B.csproj")), Some(&b"other".to_vec()));
    assert_eq!(fs.contents_of(&path("/work/C.csproj")), None);
    fs.add_link(path("/work/A.csproj"), path("/one/A.csproj"));
    fs.add_link(path("/work/A.csproj"), path("/two/A.csproj"));
    assert_eq!(fs.resolve(&a), path("/two/A.csproj"));
    assert_eq!(fs.resolve(&path("/two/A.csproj")), path("/two/A.csproj"));
    assert_eq!(fs.contents_of(&a), Some(&b"second".to_vec()));
}

#[test]
fn resolution_targets_name_one_path_for_each_reference() {
    let mut fs = snapshot(&[
        ("/work/app.sln", solution_text(&["A.csproj", "/elsewhere/E.csproj", "sub\\..\\B.csproj"])),
        ("/work/A.csproj", project_text(&["..\\up\\U.csproj", "B.csproj"])),
    ]);
    fs.add_link(path("/work/A.csproj"), path("/real/A.csproj"));
    assert_eq!(
        get_resolution_targets(ManifestKind::Solution, &path("/work/app.sln"), &fs),
        paths(&["/work/A.csproj", "/elsewhere/E.csproj", "/work/B.csproj"])
    );
    assert_eq!(
        get_resolution_targets(ManifestKind::Project, &path("/work/A.csproj"), &fs),
        paths(&["/up/U.csproj", "/work/B.csproj"])
    );
    assert_eq!(
        get_resolution_targets(ManifestKind::Project, &path("/work/app.sln"), &fs),
        Vec::<ProjectPath>::new()
    );
    assert_eq!(
        get_resolution_targets(ManifestKind::Project, &path("/work/missing.csproj"), &fs),
        Vec::<ProjectPath>::new()
    );
}

#[test]
fn referenced_paths_are_scoped_to_the_directory_given() {
    let fs = snapshot(&[(
        "/work/A.csproj",
        project_text(&["x\\X.csproj", "y\\Y.csproj", "..\\Z.csproj"]),
    )]);
    let manifest = path("/work/A.csproj");
    assert_eq!(
        get_referenced_paths(ManifestKind::Project, &manifest, &path("/work/x"), &fs),
        paths(&["/work/x/X.csproj"])
    );
    assert_eq!(
        get_referenced_paths(ManifestKind::Project, &manifest, &path("/"), &fs),
        paths(&["/work/x/X.csproj", "/work/y/Y.csproj", "/Z.csproj"])
    );
    assert_eq!(
        get_referenced_paths(ManifestKind::Project, &manifest, &path("work"), &fs),
        Vec::<ProjectPath>::new()
    );
}

#[test]
fn member_declared_twice_is_listed_twice() {
    let fs = snapshot(&[("/work/app.sln", solution_text(&["A.csproj", ".\\A.csproj"]))]);
    let found = get_start_projects(&path("/work/app.sln"), &fs);
    assert_eq!(found.members, paths(&["/work/A.csproj", "/work/A.csproj"]));
    assert_eq!(found.roots, found.members);
}

#[test]
fn dependency_graph_holds_one_list_for_each_member() {
    let fs = snapshot(&[
        ("/work/A.csproj", project_text(&["B.csproj", "C.csproj"])),
        ("/work/B.csproj", project_text(&[])),
    ]);
    let members = paths(&["/work/A.csproj", "/work/B.csproj", "/work/C.csproj"]);
    let graph = get_dependency_graph(&members, &path("/work/app.sln"), &fs);
    assert_eq!(
        graph,
        vec![paths(&["/work/B.csproj", "/work/C.csproj"]), Vec::new(), Vec::new()]
    );
}

#[test]
fn roots_are_the_members_that_no_list_names() {
    let members = paths(&["/a", "/b", "/c", "/d"]);
    let graph = vec![paths(&["/b"]), paths(&[]), paths(&["/d", "/x"]), paths(&["/b"])];
    assert_eq!(find_roots(&members, &graph), paths(&["/a", "/c"]));
    assert_eq!(find_roots(&members, &Vec::new()), members);
    assert_eq!(find_roots(&Vec::new(), &graph), Vec::<ProjectPath>::new());
    let reversed: Vec<Vec<ProjectPath>> = graph.iter().rev().cloned().collect();
    assert_eq!(find_roots(&members, &reversed), paths(&["/a", "/c"]));
    let merged = vec![paths(&["/x", "/d", "/b", "/b"])];
    assert_eq!(find_roots(&members, &merged), paths(&["/a", "/c"]));
    let all = vec![paths(&["/a", "/b"]), paths(&["/c", "/d"])];
    assert_eq!(find_roots(&members, &all), Vec::<ProjectPath>::new());
}

#[test]
fn holds_and_is_named_look_for_equal_paths() {
    let list = paths(&["/a/b", "/c"]);
    assert!(holds(&list, &path("\\a\\b")));
    assert!(holds(&list, &path("/c/.")));
    assert!(!holds(&list, &path("/a")));
    assert!(!holds(&Vec::new(), &path("/a")));
    let graph = vec![paths(&[]), paths(&["/a/b"]), paths(&["/c"])];
    assert!(is_named(&graph, &path("/c")));
    assert!(is_named(&graph, &path("/a/b")));
    assert!(!is_named(&graph, &path("/a/B")));
    assert!(!is_named(&Vec::new(), &path("/c")));
}

#[test]
fn solution_on_a_drive_is_handled_like_one_at_the_root() {
    let fs = snapshot(&[
        ("C:\\work\\app.sln", solution_text(&["A\\A.csproj", "B\\B.csproj", "D:\\B\\B.csproj"])),
        ("C:/work/A/A.csproj", project_text(&["..\\B\\B.csproj"])),
    ]);
    let found = get_start_projects(&path("C:/work/app.sln"), &fs);
    assert_eq!(found.members, paths(&["C:/work/A/A.csproj", "C:/work/B/B.csproj"]));
    assert_eq!(found.roots, paths(&["C:/work/A/A.csproj"]));
}
