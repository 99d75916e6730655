use maze_traversal::bfs_traversal;
use maze_traversal::dfs_traversal;
use maze_traversal::maze::Maze;

fn show(maze: &Maze) {
    let text = String::from_utf8(maze.render()).unwrap();
    println!("{}", text);
}

#[test]
fn dfs_trav() {
    let width = 25;
    let height = 25;
    let open_percent = 10;
    let mut maze2 = Maze::new(width, height);
    maze2.dfs_gen(open_percent);
    dfs_traversal::traverse(&mut maze2);

    show(&maze2);
}

#[test]
fn bfs_traversal() {
    let width = 25;
    let height = 25;
    let open_percent = 10;
    let mut maze2 = Maze::new(width, height);

    maze2.dfs_gen(open_percent);

    bfs_traversal::traverse(&mut maze2);

    show(&maze2);
}

#[test]
fn dfs_maze() {
    let width = 25;
    let height = 25;
    let open_percent = 10;
    let mut maze2 = Maze::new(width, height);

    maze2.dfs_gen(open_percent);

    show(&maze2);
}
