use memstrap::memprocfs_path::convert_path;

#[test]
fn test_convert_path_ntfs() {
    let (path, is_dir) = convert_path("\\0\\Windows\\System32\\config\\SYSTEM", "ntfs");
    assert_eq!(path, "M:\\forensic\\ntfs\\0\\Windows\\System32\\config\\SYSTEM");
    assert_eq!(is_dir, false);

    let (path, is_dir) = convert_path("0\\Windows\\System32\\config\\SYSTEM", "ntfs");
    assert_eq!(path, "M:\\forensic\\ntfs\\0\\Windows\\System32\\config\\SYSTEM");
    assert_eq!(is_dir, false);

    let (path, is_dir) = convert_path("\\0\\test\\file.txt", "ntfs");
    assert_eq!(path, "M:\\forensic\\ntfs\\0\\test\\file.txt");
    assert_eq!(is_dir, false);
}

#[test]
fn test_convert_path_normal() {
    let (path, is_dir) =
        convert_path("\\Windows\\System32\\en-US\\KernelBase.dll.mui", "normal");
    assert_eq!(path, "M:\\forensic\\files\\ROOT\\Windows\\System32\\en-US");
    assert_eq!(is_dir, true);

    let (path, is_dir) = convert_path("Windows\\System32\\config\\SYSTEM", "normal");
    assert_eq!(path, "M:\\forensic\\files\\ROOT\\Windows\\System32\\config");
    assert_eq!(is_dir, true);

    let (path, is_dir) = convert_path("test.txt", "normal");
    assert_eq!(path, "M:\\forensic\\files\\ROOT");
    assert_eq!(is_dir, true);
}

#[test]
fn test_convert_path_vol2() {
    let (path, is_dir) = convert_path(
        "\\Device\\HarddiskVolume1\\Windows\\System32\\wlanhlp.dll",
        "vol2",
    );
    assert_eq!(path, "M:\\forensic\\ntfs\\0\\Windows\\System32\\wlanhlp.dll");
    assert_eq!(is_dir, false);

    let (path, is_dir) = convert_path("Device\\HarddiskVolume2\\Windows\\notepad.exe", "vol2");
    assert_eq!(path, "M:\\forensic\\ntfs\\1\\Windows\\notepad.exe");
    assert_eq!(is_dir, false);

    let (path, is_dir) =
        convert_path("\\Device\\HarddiskVolume3\\Program Files\\test.dll", "vol2");
    assert_eq!(path, "M:\\forensic\\ntfs\\2\\Program Files\\test.dll");
    assert_eq!(is_dir, false);

    let (path, is_dir) = convert_path("\\SomeOther\\Path\\file.txt", "vol2");
    assert_eq!(path, "M:\\forensic\\ntfs\\SomeOther\\Path\\file.txt");
    assert_eq!(is_dir, false);
}

#[test]
fn convert_path_unknown_mode_is_ntfs() {
    let (path, is_dir) = convert_path("\\a\\b", "other");
    assert_eq!(path, "M:\\forensic\\ntfs\\a\\b");
    assert!(!is_dir);
}

#[test]
fn convert_path_turns_slashes_into_backslashes() {
    let (path, _) = convert_path("a/b/c.txt", "ntfs");
    assert_eq!(path, "M:\\forensic\\ntfs\\a\\b\\c.txt");
    let (path, is_dir) = convert_path("dir\\sub/file.txt", "normal");
    assert_eq!(path, "M:\\forensic\\files\\ROOT\\dir");
    assert!(is_dir);
}

#[test]
fn convert_path_strips_one_leading_backslash_only() {
    let (path, _) = convert_path("\\\\x", "ntfs");
    assert_eq!(path, "M:\\forensic\\ntfs\\\\x");
    let (path, _) = convert_path("\\\\x", "normal");
    assert_eq!(path, "M:\\forensic\\files\\ROOT\\");
}

#[test]
fn convert_path_vol2_number_forms() {
    let (path, _) = convert_path("Device\\HarddiskVolume10\\a", "vol2");
    assert_eq!(path, "M:\\forensic\\ntfs\\9\\a");
    let (path, _) = convert_path("Device\\HarddiskVolume+7\\a\\b", "vol2");
    assert_eq!(path, "M:\\forensic\\ntfs\\6\\a\\b");
    let (path, _) = convert_path("Device\\HarddiskVolume0\\a", "vol2");
    assert_eq!(path, "M:\\forensic\\ntfs\\-1\\a");
    let (path, _) = convert_path("Device\\HarddiskVolume-5\\a", "vol2");
    assert_eq!(path, "M:\\forensic\\ntfs\\-6\\a");
    let (path, _) = convert_path("Device\\HarddiskVolume007\\a", "vol2");
    assert_eq!(path, "M:\\forensic\\ntfs\\6\\a");
    let (path, _) = convert_path("Device\\HarddiskVolume2147483647\\a", "vol2");
    assert_eq!(path, "M:\\forensic\\ntfs\\2147483646\\a");
    let (path, _) = convert_path("Device\\HarddiskVolume-2147483648\\a", "vol2");
    assert_eq!(path, "M:\\forensic\\ntfs\\2147483647\\a");
}

#[test]
fn convert_path_vol2_falls_back_without_a_number() {
    let (path, _) = convert_path("Device\\HarddiskVolume\\a", "vol2");
    assert_eq!(path, "M:\\forensic\\ntfs\\Device\\HarddiskVolume\\a");
    let (path, _) = convert_path("Device\\HarddiskVolumeX\\a", "vol2");
    assert_eq!(path, "M:\\forensic\\ntfs\\Device\\HarddiskVolumeX\\a");
    let (path, _) = convert_path("Device\\HarddiskVolume2147483648\\a", "vol2");
    assert_eq!(path, "M:\\forensic\\ntfs\\Device\\HarddiskVolume2147483648\\a");
    let (path, _) = convert_path("Device\\HarddiskVolume1", "vol2");
    assert_eq!(path, "M:\\forensic\\ntfs\\Device\\HarddiskVolume1");
    let (path, _) = convert_path("Device\\HarddiskVolume1\\", "vol2");
    assert_eq!(path, "M:\\forensic\\ntfs\\0\\");
}
