[package]
name = "ksip"
version = "0.1.0"
edition = "2021"
publish = false

[dependencies]
serde = { version = "=1.0.229", features = ["derive"] }
serde_json = "=1.0.154"
miniz_oxide = "=0.9.1"
winreg = "=0.56.0"
global-hotkey = "=0.9.0"
windows-sys = { version = "=0.61.2", features = ["Win32_Foundation", "Win32_Security_Credentials", "Win32_Security_Cryptography", "Win32_System_Threading", "Win32_System_SystemInformation", "Win32_System_Time", "Win32_System_Pipes", "Win32_Storage_FileSystem", "Win32_UI_Shell", "Win32_UI_Controls_Dialogs", "Win32_NetworkManagement_IpHelper", "Win32_NetworkManagement_Ndis", "Win32_Networking_WinSock", "Win32_System_DataExchange", "Win32_System_Memory"] }
windows = { version = "=0.62.2", features = ["Win32_Foundation", "Win32_Devices_FunctionDiscovery", "Win32_Media_Audio", "Win32_Media_Audio_Endpoints", "Win32_Media_KernelStreaming", "Win32_Media_Multimedia", "Win32_Media_MediaFoundation", "Win32_System_Com", "Win32_System_Com_StructuredStorage", "Win32_System_Variant", "Win32_UI_Shell_PropertiesSystem"] }
